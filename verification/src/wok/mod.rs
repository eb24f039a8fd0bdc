pub mod wokcore;
pub mod woksynth;
