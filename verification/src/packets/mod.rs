//! Records without flags: the plain data segment.

pub mod packet;
