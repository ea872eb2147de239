pub mod bbd;
pub mod device;
pub mod netlist;
pub mod partition;
pub mod spring;
pub mod time;
