//! Values turned into flat buffers before they travel between PEs, and back.
use vstd::prelude::*;
use vstd::utf8::encode_utf8;

verus! {

broadcast use vstd::string::axiom_spec_iter;

/// `n` values of `T` in a vector.
#[allow(non_camel_case_types)]
pub struct serial_ptr<T> {
    pub ptr: Vec<T>,
    pub n: usize,
}

impl<T: Clone + Default> serial_ptr<T> {
    /// A buffer of `n` default values: each element is what `T::default`
    /// returns.
    pub fn new(n: usize) -> (s: serial_ptr<T>)
        ensures
            s.n == n,
            s.ptr@.len() == n,
            forall|i: int| 0 <= i < n ==> call_ensures(T::default, (), #[trigger] s.ptr@[i]),
    {
        let mut ptr: Vec<T> = Vec::new();
        let mut i: usize = 0;
        while i < n
            invariant
                i <= n,
                ptr@.len() == i,
                forall|j: int| 0 <= j < i ==> call_ensures(T::default, (), #[trigger] ptr@[j]),
            decreases n - i,
        {
            ptr.push(T::default());
            i = i + 1;
        }
        serial_ptr { ptr, n }
    }
}

/// A value that can be turned into an `R` to travel, and rebuilt from it.
#[allow(non_camel_case_types)]
pub trait serializer<R>: Sized {
    fn serialize(data: Self) -> R;

    fn deserialize(data: R) -> Self;
}

/// A plain value travels as it is.
impl<T: Copy> serializer<T> for T {
    fn serialize(data: T) -> (r: T)
        ensures
            r == data,
    {
        data
    }

    fn deserialize(data: T) -> (r: T)
        ensures
            r == data,
    {
        data
    }
}

/// `chars` followed by `'\0'` up to length `n`.
pub open spec fn padded(chars: Seq<char>, n: int) -> Seq<char> {
    chars + Seq::new((n - chars.len()) as nat, |i: int| '\0')
}

/// Each `char` takes at least one byte of UTF-8.
pub proof fn lemma_utf8_len(chars: Seq<char>)
    ensures
        chars.len() <= encode_utf8(chars).len(),
    decreases chars.len(),
{
    if chars.len() > 0 {
        lemma_utf8_len(chars.drop_first());
    }
}

/// A round trip through the buffer gives a string its characters back, with
/// one `'\0'` for each byte that its UTF-8 form has beyond one per
/// character; an ASCII string comes back unchanged.
pub proof fn lemma_round_trip(chars: Seq<char>)
    ensures
        padded(chars, encode_utf8(chars).len() as int).take(chars.len() as int) == chars,
        padded(chars, encode_utf8(chars).len() as int).len() == encode_utf8(chars).len(),
        vstd::utf8::is_ascii_chars(chars) ==> padded(chars, encode_utf8(chars).len() as int) == chars,
{
    lemma_utf8_len(chars);
    let p = padded(chars, encode_utf8(chars).len() as int);
    assert(p.take(chars.len() as int) == chars);
    if vstd::utf8::is_ascii_chars(chars) {
        vstd::utf8::is_ascii_chars_encode_utf8(chars);
        assert(p == chars);
    }
}

/// Appends `c` to `s`.
#[verifier::external_body]
fn string_push(s: &mut String, c: char)
    ensures
        final(s)@ == old(s)@.push(c),
{
    s.push(c);
}

/// A string travels as its characters, in a buffer with one slot per byte of
/// its UTF-8 form; the slots past the last character hold `'\0'`.
impl serializer<serial_ptr<char>> for String {
    fn serialize(data: String) -> (p: serial_ptr<char>)
        ensures
            p.n == encode_utf8(data@).len(),
            p.ptr@ == padded(data@, p.n as int),
    {
        let s = data.as_str();
        let n = s.as_bytes().len();
        proof {
            lemma_utf8_len(data@);
        }
        let mut ptr: Vec<char> = Vec::new();
        for c in it: s.chars()
            invariant
                it.seq() == data@,
                data@.len() <= n,
                ptr@ == data@.take(it.index()),
        {
            ptr.push(c);
            proof {
                assert(data@.take(it.index() + 1) == data@.take(it.index()).push(c));
            }
        }
        proof {
            assert(data@.take(data@.len() as int) == data@);
        }
        let mut i: usize = ptr.len();
        while i < n
            invariant
                data@.len() <= i <= n,
                ptr@.len() == i,
                ptr@ == padded(data@, i as int),
            decreases n - i,
        {
            ptr.push('\0');
            i = i + 1;
            proof {
                assert(ptr@ == padded(data@, i as int));
            }
        }
        serial_ptr { ptr, n }
    }

    fn deserialize(data: serial_ptr<char>) -> (s: String)
        ensures
            s@ == data.ptr@,
    {
        let mut s = String::new();
        let mut i: usize = 0;
        while i < data.ptr.len()
            invariant
                i <= data.ptr@.len(),
                s@ == data.ptr@.take(i as int),
            decreases data.ptr@.len() - i,
        {
            string_push(&mut s, data.ptr[i]);
            proof {
                assert(data.ptr@.take(i + 1) == data.ptr@.take(i as int).push(data.ptr@[i as int]));
            }
            i = i + 1;
        }
        proof {
            assert(data.ptr@.take(data.ptr@.len() as int) == data.ptr@);
        }
        s
    }
}

} // verus!
