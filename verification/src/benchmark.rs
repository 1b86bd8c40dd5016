//! The computations inside the benchmarks: timing arithmetic, the bit
//! reversal of the FFT, and the local steps of the distributed sample sort.
pub mod tools;
pub mod bench_fft;
pub mod bench_sample_sort_array;
