//! Pairing, repair and collision-free placement of Live Photo captures: a still image
//! and its short motion video, found in one flat directory by stem and modification time.
pub mod distribute;
pub mod index;
pub mod matcher;
pub mod names;
pub mod quarantine;
pub mod slots;
