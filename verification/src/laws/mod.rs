//! What the operations are for: statements that relate what goes into them to what
//! comes out, in terms of the events themselves.
pub mod blocks;
pub mod clicking;
pub mod comparing;
pub mod confidence;
pub mod copying;
pub mod drawing;
pub mod keys;
pub mod labelling;
pub mod loading;
pub mod moving;
pub mod opening;
pub mod overview;
pub mod picking;
pub mod searching;
pub mod sequences;
pub mod showing;
pub mod stages;
pub mod tables;
pub mod warping;
pub mod zooming;
