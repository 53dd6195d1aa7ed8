pub mod content_type;
pub mod method;
pub mod request;
pub mod response;
pub mod status;
pub mod uri;
