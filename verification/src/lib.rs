pub mod dsp;
