//! Reading LaTeX Beamer sources: splitting a document into its frames,
//! labelling the frames for display, writing a chosen set of them back,
//! guessing which PDF page shows which frame, naming cached thumbnails and
//! finding the frame titles to mark in an editor.
//!
//! - `text`: searching, counting and cutting character sequences.
//! - `slide`: slide types, frames and their labels.
//! - `texparse`: reading a document into frames and writing it back, and
//!   matching frames with PDF pages.
//! - `pdfparse`: thumbnail file names and frame pages from page labels.
//! - `window`: what the editor shows and which frame titles it marks.

pub mod pdfparse;
pub mod slide;
pub mod texparse;
pub mod text;
pub mod window;
