pub mod datas;
pub mod window;
pub mod ohlc;
pub mod tick_generator;
