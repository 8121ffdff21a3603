//! What several operations of a [`TmpFileCryptoWriter`] come to, one after the other.

use crate::outcome::Step;
use crate::tmp_file::{TmpFileCryptoWriter, TmpGoal};
use crate::tmp_file_laws::{
    consistent, content, drives, law_finish_stores_content, law_flush_changes_nothing,
    law_seek_keeps_content, law_write_overwrites, overwritten, padded, TmpFiles,
};
use vstd::prelude::*;

verus! {

/// One thing to do to a file.
#[verifier::ext_equal]
pub enum Edit {
    /// Write `data`, of which the first `taken` bytes are taken.
    Write { data: Seq<u8>, taken: u64 },
    /// Go to `target`.
    Seek { target: u64 },
    Flush,
}

/// An editor of a plain file: what the file holds, and where the next byte goes.
#[verifier::ext_equal]
pub struct Editor {
    pub content: Seq<u8>,
    pub pos: nat,
}

impl Editor {
    /// The editor after one edit in place.
    pub open spec fn edited(self, edit: Edit) -> Editor {
        match edit {
            Edit::Write { data, taken } => Editor {
                content: overwritten(self.content, self.pos, data.subrange(0, taken as int)),
                pos: self.pos + taken as nat,
            },
            Edit::Seek { target } => Editor {
                content: padded(self.content, target as nat),
                pos: target as nat,
            },
            Edit::Flush => self,
        }
    }

    /// The editor after all the edits.
    pub open spec fn edited_all(self, edits: Seq<Edit>) -> Editor
        decreases edits.len(),
    {
        if edits.len() == 0 {
            self
        } else {
            self.edited(edits[0]).edited_all(edits.drop_first())
        }
    }
}

/// The editor that a writer stands for.
pub open spec fn editor(s: TmpFileCryptoWriter, f: TmpFiles) -> Editor {
    Editor { content: content(s, f), pos: s.position() as nat }
}

/// Whether the operation for `edit` runs from its start to its end in `n` pieces of work.
pub open spec fn does_edit<E>(
    s: TmpFileCryptoWriter,
    f: TmpFiles,
    edit: Edit,
    n: nat,
    s2: TmpFileCryptoWriter,
    f2: TmpFiles,
    v: u64,
) -> bool {
    let goal = match edit {
        Edit::Write { .. } => TmpGoal::Write,
        Edit::Seek { target } => TmpGoal::Seek { target },
        Edit::Flush => TmpGoal::Flush,
    };
    let data = match edit {
        Edit::Write { data, .. } => data,
        _ => Seq::empty(),
    };
    &&& drives(
        data,
        s.started::<E>(goal).0,
        f,
        s.started::<E>(goal).1,
        n,
        s2,
        f2,
        Step::Done(v),
    )
    &&& edit matches Edit::Write { taken, .. } ==> taken == v
}

/// Whether the operations for the edits run one after the other.
pub open spec fn does_edits<E>(
    s: TmpFileCryptoWriter,
    f: TmpFiles,
    edits: Seq<Edit>,
    s2: TmpFileCryptoWriter,
    f2: TmpFiles,
) -> bool
    decreases edits.len(),
{
    if edits.len() == 0 {
        s == s2 && f == f2
    } else {
        exists|n: nat, s1: TmpFileCryptoWriter, f1: TmpFiles, v: u64| #[trigger]
            does_edit::<E>(s, f, edits[0], n, s1, f1, v) && does_edits::<E>(
                s1,
                f1,
                edits.drop_first(),
                s2,
                f2,
            )
    }
}

/// However writes, seeks and flushes follow each other, the writer stands for what an editor in
/// place would have come to.
pub proof fn law_edits_are_in_place<E>(
    s: TmpFileCryptoWriter,
    f: TmpFiles,
    edits: Seq<Edit>,
    s2: TmpFileCryptoWriter,
    f2: TmpFiles,
)
    requires
        consistent(s, f),
        does_edits::<E>(s, f, edits, s2, f2),
    ensures
        consistent(s2, f2),
        f2.capacity == f.capacity,
        editor(s2, f2) == editor(s, f).edited_all(edits),
    decreases edits.len(),
{
    if edits.len() > 0 {
        let (n, s1, f1, v) = choose|n: nat, s1: TmpFileCryptoWriter, f1: TmpFiles, v: u64|
            #[trigger]
            does_edit::<E>(s, f, edits[0], n, s1, f1, v) && does_edits::<E>(
                s1,
                f1,
                edits.drop_first(),
                s2,
                f2,
            );
        match edits[0] {
            Edit::Write { data, .. } => {
                law_write_overwrites::<E>(s, f, data, n, s1, f1, v);
            },
            Edit::Seek { target } => {
                law_seek_keeps_content::<E>(s, f, target, n, s1, f1, v);
            },
            Edit::Flush => {
                law_flush_changes_nothing::<E>(s, f, n, s1, f1, v);
            },
        }
        assert(editor(s1, f1) == editor(s, f).edited(edits[0]));
        law_edits_are_in_place::<E>(s1, f1, edits.drop_first(), s2, f2);
    }
}

/// A new writer that was edited with and finished leaves the file as an editor in place would have
/// left it.
pub proof fn law_file_is_edited_in_place<E>(
    s: TmpFileCryptoWriter,
    f: TmpFiles,
    edits: Seq<Edit>,
    s2: TmpFileCryptoWriter,
    f2: TmpFiles,
    n: nat,
    s3: TmpFileCryptoWriter,
    f3: TmpFiles,
    v: u64,
)
    requires
        !s.writer,
        consistent(s, f),
        does_edits::<E>(s, f, edits, s2, f2),
        drives(
            Seq::empty(),
            s2.started::<E>(TmpGoal::Finish).0,
            f2,
            s2.started::<E>(TmpGoal::Finish).1,
            n,
            s3,
            f3,
            Step::Done(v),
        ),
    ensures
        f3.file == (Editor { content: f.file, pos: 0 }).edited_all(edits).content,
        !s3.writer,
{
    law_edits_are_in_place::<E>(s, f, edits, s2, f2);
    law_finish_stores_content::<E>(s2, f2, n, s3, f3, v);
}

} // verus!
