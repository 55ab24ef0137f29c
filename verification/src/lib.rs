//! The logic of a collaborative text editor client: an operational-transform
//! client state machine, the document binding it edits, cursor index
//! transformation, and the backspace rule of the code editor.
pub mod text;
pub mod ot;
pub mod transformer;
pub mod editor;
pub mod backspace;
pub mod client;
pub mod coeditor;
pub mod message;
pub mod connection;
pub mod laws;
