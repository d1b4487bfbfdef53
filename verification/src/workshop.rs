//! Data returned by the remote asset-catalog service about a published
//! file.

use vstd::prelude::*;

verus! {

/// Details of one published file.
pub struct PublishedFileDetails {
    pub publishedfileid: String,
    pub title: Option<String>,
    pub description: Option<String>,
    pub file_url: Option<String>,
}

/// A result page of published-file details.
pub struct PublishedFileDetailsList {
    pub result: u8,
    pub resultcount: usize,
    pub publishedfiledetails: Vec<PublishedFileDetails>,
}

/// The catalog service's response envelope.
pub struct PublishedFileDetailsResponse {
    pub response: PublishedFileDetailsList,
}

} // verus!
