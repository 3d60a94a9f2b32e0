//! The timer core and the decisions of the loop that drives it.

pub mod agenda;
pub mod driver;
pub mod event;
pub mod laws;
pub mod queue;
pub mod timer;

pub use self::driver::Driver;
pub use self::event::Event;
pub use self::timer::Timer;
