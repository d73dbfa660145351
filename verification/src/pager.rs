//! Cursor-based member enumeration for bulk resynchronization.
//!
//! When a group becomes available again, every member must be pushed once
//! through the reconciliation pipeline.  Membership is fetched page by
//! page, after a strictly increasing subject cursor; the enumeration is
//! done when a page comes back with fewer entries than requested.  The
//! pager is the pure state machine behind that loop; the surrounding
//! runtime performs the fetches.

use vstd::prelude::*;

verus! {

/// The state of one paginated membership enumeration.
pub struct MemberPager {
    /// Fetch members with identifiers strictly above this cursor.
    pub after: u64,
    /// How many members each page asks for.
    pub page_size: u64,
    /// Whether the enumeration has seen its final page.
    pub done: bool,
}

impl MemberPager {
    /// A fresh enumeration: the cursor starts below every real identifier.
    pub fn new(page_size: u64) -> (r: MemberPager)
        requires
            page_size >= 1,
        ensures
            r.after == 0,
            r.page_size == page_size,
            !r.done,
    {
        MemberPager { after: 0, page_size, done: false }
    }

    /// Feeds one fetched page of member identifiers into the enumeration.
    /// The enumeration finishes exactly when the page is short; otherwise
    /// the cursor advances to the page's last identifier.
    pub fn feed_page(&mut self, ids: &Vec<u64>)
        requires
            !old(self).done,
        ensures
            final(self).page_size == old(self).page_size,
            final(self).done == (ids@.len() < old(self).page_size),
            ids@.len() > 0 ==> final(self).after == ids@.last(),
            ids@.len() == 0 ==> final(self).after == old(self).after,
            ids@.len() > 0 && (forall|t: int| 0 <= t < ids@.len() ==> ids@[t] > old(self).after)
                ==> final(self).after > old(self).after,
    {
        if ids.len() > 0 {
            self.after = ids[ids.len() - 1];
        }
        self.done = (ids.len() as u64) < self.page_size;
    }
}

} // verus!
