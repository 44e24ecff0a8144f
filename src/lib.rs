//! Listing of directory contents: entry selection and ordering, size
//! annotation, and column layout with one style per entry.
pub mod entry;
pub mod layout;
pub mod order;
pub mod size;
pub mod terminal;

pub use entry::{DirectoryEntry, DisplayOptions, EntryKind, RawMetadata, SizeBase, SortOrder};
pub use layout::{classify, header_line, render, render_directory, right_pad, RenderLine, Segment, Style};
pub use order::select;
pub use size::{decimal_string, format_size, human_readable_filesize};
pub use terminal::{console_width, width_or_default};
