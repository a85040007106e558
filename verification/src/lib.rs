pub mod brightness;
pub mod content;
pub mod device;
pub mod numeral;
