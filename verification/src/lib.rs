pub mod breakfast;
pub mod callme;
pub mod component;
pub mod connection;
pub mod flatten;
pub mod frame;
pub mod generics;
pub mod strsplit;
pub mod summary;

pub use breakfast::Breakfast;
pub use callme::quox;
pub use component::Circle;
pub use component::Component;
pub use component::Square;
pub use connection::Connection;
pub use connection::StreamEnd;
pub use flatten::Flatten;
pub use flatten::IteratorExt;
pub use flatten::flatten;
pub use frame::Frame;
pub use frame::FrameError;
pub use generics::largest;
pub use generics::largest_reference;
pub use generics::largest_i32;
pub use strsplit::StrSplit;
pub use strsplit::until_char;
pub use summary::NewsArticle;
pub use summary::Summary;
pub use summary::Tweet;
