//! Verified core of a sensor-data gateway: a power-of-two ring queue that
//! overwrites its oldest item when full, a bounded FIFO buffer whose
//! producers wait when it is full, the grouping of a window's readings by
//! sensor, the text of reading lines and of stored lines, and the choice of
//! a sensor's latest stored value.

pub mod power_of_two;
pub mod round_queue;
pub mod blocking_buffer;
pub mod reading;
pub mod history;
pub mod window;
pub mod latest;
pub mod sensor_ids;
