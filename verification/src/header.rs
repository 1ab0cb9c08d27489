//! A header of display labels for an interactive pane.

use vstd::prelude::*;

verus! {

/// An ordered list of labels shown above a pane.
#[derive(Debug)]
pub struct Header {
    pub labels: Vec<String>,
}

impl Header {
    /// An empty header.
    pub fn new() -> (h: Header)
        ensures
            h.labels@.len() == 0,
    {
        Header { labels: Vec::new() }
    }

    /// The header with one more label at the end.
    pub fn add_label(self, label: String) -> (h: Header)
        ensures
            h.labels@ == self.labels@.push(label),
    {
        let mut h = self;
        h.labels.push(label);
        h
    }

    /// The header with its labels replaced.
    pub fn set_labels(self, labels: Vec<String>) -> (h: Header)
        ensures
            h.labels@ == labels@,
    {
        let mut h = self;
        h.labels = labels;
        h
    }
}

impl Default for Header {
    /// An empty header.
    fn default() -> (h: Header)
        ensures
            h.labels@.len() == 0,
    {
        Header::new()
    }
}

} // verus!
