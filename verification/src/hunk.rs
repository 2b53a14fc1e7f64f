//! Stable hunk identifiers, and the fold that assembles diff hunks from a
//! stream of diff events.
//!
//! The identifier is a pure function of `(file, old_start, new_start,
//! content)`, so two peers diffing the same two revisions derive the same
//! id for the same logical hunk, and a content edit changes the id.  The
//! diff itself is produced outside this crate; it reaches the fold as a
//! stream of file-boundary, hunk-boundary and line events.

use vstd::prelude::*;
use crate::hashes::{FNV_OFFSET, fnv_chars, fnv_chars_exec, fnv_update, fnv_update_exec, dec_of,
    dec_str, hex_of, hex_str};
use crate::model::{DiffHunk, DiffHunkV};

verus! {

/// A domain separator absorbed between the fields of a hunk; it is above
/// the unicode range, so no character collides with it.
pub const HUNK_FIELD_SEP: u64 = 0x110000;

/// The 64-bit fingerprint of a hunk's identity fields.
pub open spec fn hunk_fingerprint(
    file: Seq<char>,
    old_start: u64,
    new_start: u64,
    content: Seq<char>,
) -> u64 {
    fnv_chars(
        fnv_update(
            fnv_update(
                fnv_update(fnv_chars(FNV_OFFSET, file), HUNK_FIELD_SEP),
                old_start,
            ),
            new_start,
        ),
        content,
    )
}

/// The identifier derived for a hunk: the fingerprint, in hexadecimal.
pub open spec fn hunk_id_of(
    file: Seq<char>,
    old_start: u64,
    new_start: u64,
    content: Seq<char>,
) -> Seq<char> {
    hex_of(hunk_fingerprint(file, old_start, new_start, content) as nat)
}

/// Derives the stable identifier of a diff hunk from its location and
/// content.
pub fn hunk_id(file: &str, old_start: usize, new_start: usize, content: &str) -> (r: String)
    ensures
        r@ == hunk_id_of(file@, old_start as u64, new_start as u64, content@),
{
    let h = fnv_chars_exec(FNV_OFFSET, file);
    let h = fnv_update_exec(h, HUNK_FIELD_SEP);
    let h = fnv_update_exec(h, old_start as u64);
    let h = fnv_update_exec(h, new_start as u64);
    let h = fnv_chars_exec(h, content);
    hex_str(h)
}

/// Equal inputs always derive equal hunk identifiers, on every peer and in
/// every process: the identifier is a function of the four fields alone.
pub proof fn lemma_hunk_id_deterministic(
    file1: Seq<char>,
    old_start1: u64,
    new_start1: u64,
    content1: Seq<char>,
    file2: Seq<char>,
    old_start2: u64,
    new_start2: u64,
    content2: Seq<char>,
)
    requires
        file1 == file2,
        old_start1 == old_start2,
        new_start1 == new_start2,
        content1 == content2,
    ensures
        hunk_id_of(file1, old_start1, new_start1, content1) == hunk_id_of(
            file2,
            old_start2,
            new_start2,
            content2,
        ),
{
}

/// The header line of a hunk, as it stands in the hunk's content.
pub open spec fn header_of(old_start: nat, old_lines: nat, new_start: nat, new_lines: nat) -> Seq<
    char,
> {
    "@@ -"@ + dec_of(old_start) + ","@ + dec_of(old_lines) + " +"@ + dec_of(new_start) + ","@
        + dec_of(new_lines) + " @@\n"@
}

/// One event of a diff stream, as the ghost view sees it.
pub ghost enum DiffEventV {
    File { path: Seq<char> },
    Hunk { old_start: nat, old_lines: nat, new_start: nat, new_lines: nat },
    Line { origin: char, content: Seq<char> },
}

/// One event of a diff stream: a file boundary, a hunk boundary, or a
/// line.  `origin` is the line's marker character (`'+'`, `'-'`, `' '`,
/// and the like).
pub enum DiffEvent {
    File { path: String },
    Hunk { old_start: usize, old_lines: usize, new_start: usize, new_lines: usize },
    Line { origin: char, content: String },
}

impl View for DiffEvent {
    type V = DiffEventV;

    open spec fn view(&self) -> DiffEventV {
        match self {
            DiffEvent::File { path } => DiffEventV::File { path: path@ },
            DiffEvent::Hunk { old_start, old_lines, new_start, new_lines } => DiffEventV::Hunk {
                old_start: *old_start as nat,
                old_lines: *old_lines as nat,
                new_start: *new_start as nat,
                new_lines: *new_lines as nat,
            },
            DiffEvent::Line { origin, content } => DiffEventV::Line {
                origin: *origin,
                content: content@,
            },
        }
    }
}

/// Mathematical view of the accumulator state.
pub ghost struct HunkAccumulatorV {
    pub file_path: Seq<char>,
    pub hunk_content: Seq<char>,
    pub old_start: nat,
    pub old_lines: nat,
    pub new_start: nat,
    pub new_lines: nat,
    pub in_hunk: bool,
    pub hunks: Seq<DiffHunkV>,
}

/// The hunk completed by the state `a`, once its last line has been seen.
pub open spec fn completed_hunk(a: HunkAccumulatorV) -> DiffHunkV {
    DiffHunkV {
        id: hunk_id_of(a.file_path, a.old_start as u64, a.new_start as u64, a.hunk_content),
        file: a.file_path,
        old_start: a.old_start,
        old_lines: a.old_lines,
        new_start: a.new_start,
        new_lines: a.new_lines,
        content: a.hunk_content,
    }
}

/// One step of the fold over diff events.
pub open spec fn acc_step(a: HunkAccumulatorV, e: DiffEventV) -> HunkAccumulatorV {
    match e {
        DiffEventV::File { path } => HunkAccumulatorV { file_path: path, ..a },
        DiffEventV::Hunk { old_start, old_lines, new_start, new_lines } => HunkAccumulatorV {
            hunks: if a.in_hunk {
                a.hunks.push(completed_hunk(a))
            } else {
                a.hunks
            },
            hunk_content: header_of(old_start, old_lines, new_start, new_lines),
            old_start,
            old_lines,
            new_start,
            new_lines,
            in_hunk: true,
            ..a
        },
        DiffEventV::Line { origin, content } => if a.in_hunk {
            HunkAccumulatorV { hunk_content: a.hunk_content.push(origin) + content, ..a }
        } else {
            a
        },
    }
}

/// The hunks a fold has produced once the stream ends: the accumulated
/// ones, plus the hunk still open, if one is.
pub open spec fn acc_finish(a: HunkAccumulatorV) -> Seq<DiffHunkV> {
    if a.in_hunk && a.hunk_content.len() > 0 {
        a.hunks.push(completed_hunk(a))
    } else {
        a.hunks
    }
}

/// The initial accumulator state.
pub open spec fn acc_init() -> HunkAccumulatorV {
    HunkAccumulatorV {
        file_path: Seq::empty(),
        hunk_content: Seq::empty(),
        old_start: 0,
        old_lines: 0,
        new_start: 0,
        new_lines: 0,
        in_hunk: false,
        hunks: Seq::empty(),
    }
}

/// A single-pass fold over a stream of diff events, producing the
/// completed hunks with their stable identifiers.
pub struct HunkAccumulator {
    file_path: String,
    hunk_content: String,
    old_start: usize,
    old_lines: usize,
    new_start: usize,
    new_lines: usize,
    in_hunk: bool,
    hunks: Vec<DiffHunk>,
}

impl View for HunkAccumulator {
    type V = HunkAccumulatorV;

    closed spec fn view(&self) -> HunkAccumulatorV {
        HunkAccumulatorV {
            file_path: self.file_path@,
            hunk_content: self.hunk_content@,
            old_start: self.old_start as nat,
            old_lines: self.old_lines as nat,
            new_start: self.new_start as nat,
            new_lines: self.new_lines as nat,
            in_hunk: self.in_hunk,
            hunks: self.hunks@.map_values(|h: DiffHunk| h@),
        }
    }
}

impl HunkAccumulator {
    /// The empty accumulator, ready for the first event.
    pub fn new() -> (r: HunkAccumulator)
        ensures
            r@ == acc_init(),
    {
        let r = HunkAccumulator {
            file_path: String::new(),
            hunk_content: String::new(),
            old_start: 0,
            old_lines: 0,
            new_start: 0,
            new_lines: 0,
            in_hunk: false,
            hunks: Vec::new(),
        };
        proof {
            assert(r@.hunks =~= acc_init().hunks);
        }
        r
    }

    fn flush(&mut self)
        requires
            old(self)@.in_hunk,
        ensures
            final(self)@ == (HunkAccumulatorV {
                hunks: old(self)@.hunks.push(completed_hunk(old(self)@)),
                ..old(self)@
            }),
    {
        let id = hunk_id(
            self.file_path.as_str(),
            self.old_start,
            self.new_start,
            self.hunk_content.as_str(),
        );
        let hunk = DiffHunk {
            id,
            file: self.file_path.clone(),
            old_start: self.old_start,
            old_lines: self.old_lines,
            new_start: self.new_start,
            new_lines: self.new_lines,
            content: self.hunk_content.clone(),
        };
        self.hunks.push(hunk);
        proof {
            assert(self@.hunks =~= old(self)@.hunks.push(completed_hunk(old(self)@)));
        }
    }

    /// Absorb one diff event.
    pub fn push_event(&mut self, e: DiffEvent)
        ensures
            final(self)@ == acc_step(old(self)@, e@),
    {
        match e {
            DiffEvent::File { path } => {
                self.file_path = path;
            },
            DiffEvent::Hunk { old_start, old_lines, new_start, new_lines } => {
                if self.in_hunk {
                    self.flush();
                }
                self.in_hunk = true;
                self.old_start = old_start;
                self.old_lines = old_lines;
                self.new_start = new_start;
                self.new_lines = new_lines;
                let mut header = String::from_str("@@ -");
                let os = dec_str(old_start as u64);
                header.append(os.as_str());
                header.append(",");
                let ol = dec_str(old_lines as u64);
                header.append(ol.as_str());
                header.append(" +");
                let ns = dec_str(new_start as u64);
                header.append(ns.as_str());
                header.append(",");
                let nl = dec_str(new_lines as u64);
                header.append(nl.as_str());
                header.append(" @@\n");
                self.hunk_content = header;
                proof {
                    assert(self@.hunk_content == header_of(
                        old_start as nat,
                        old_lines as nat,
                        new_start as nat,
                        new_lines as nat,
                    ));
                }
            },
            DiffEvent::Line { origin, content } => {
                if self.in_hunk {
                    crate::strutil::string_push(&mut self.hunk_content, origin);
                    self.hunk_content.append(content.as_str());
                }
            },
        }
    }

    /// End the stream and hand out the completed hunks.
    pub fn finish(self) -> (r: Vec<DiffHunk>)
        ensures
            r@.map_values(|h: DiffHunk| h@) == acc_finish(self@),
    {
        let mut acc = self;
        if acc.in_hunk && acc.hunk_content.unicode_len() > 0 {
            acc.flush();
        }
        acc.hunks
    }
}

/// The files a diff touches: each exactly once, in lexicographic order,
/// whatever order and repetition the hunks arrive with.
pub fn files_of(hunks: &Vec<DiffHunk>) -> (r: Vec<String>)
    ensures
        forall|i: int, j: int|
            0 <= i < j < r@.len() ==> crate::order::seq_char_lt(
                (#[trigger] r@[i])@,
                (#[trigger] r@[j])@,
            ),
        r@.map_values(|s: String| s@).to_set() == hunks@.map_values(|h: DiffHunk| h@.file).to_set(),
{
    let ghost all = hunks@.map_values(|h: DiffHunk| h@.file);
    let mut r: Vec<String> = Vec::new();
    let mut i: usize = 0;
    proof {
        assert(r@.map_values(|s: String| s@).to_set() =~= all.take(0).to_set());
        assert(all.take(0).to_set() =~= Set::<Seq<char>>::empty());
    }
    while i < hunks.len()
        invariant
            i <= hunks@.len(),
            all == hunks@.map_values(|h: DiffHunk| h@.file),
            forall|a: int, b: int|
                0 <= a < b < r@.len() ==> crate::order::seq_char_lt(
                    (#[trigger] r@[a])@,
                    (#[trigger] r@[b])@,
                ),
            r@.map_values(|s: String| s@).to_set() == all.take(i as int).to_set(),
        decreases hunks@.len() - i,
    {
        let ghost rv0 = r@.map_values(|s: String| s@);
        let file = &hunks[i].file;
        let n = r.len();
        let mut pos: usize = 0;
        while pos < n && crate::order::str_lt(r[pos].as_str(), file)
            invariant
                pos <= n,
                n == r@.len(),
                rv0 == r@.map_values(|s: String| s@),
                forall|k: int|
                    0 <= k < pos ==> crate::order::seq_char_lt(#[trigger] rv0[k], file@),
            decreases n - pos,
        {
            pos = pos + 1;
        }
        let duplicate = pos < n && crate::strutil::str_eq(r[pos].as_str(), file);
        proof {
            let t0 = all.take(i as int);
            let t1 = all.take(i + 1);
            assert(t1 =~= t0.push(file@));
            assert(t1.to_set() =~= t0.to_set().insert(file@)) by {
                assert forall|x: Seq<char>| t1.to_set().contains(x) implies t0.to_set().insert(
                    file@,
                ).contains(x) by {
                    let k = choose|k: int| 0 <= k < t1.len() && t1[k] == x;
                    if k < i {
                        assert(t0[k] == x);
                        assert(t0.contains(x));
                    }
                }
                assert forall|x: Seq<char>|
                    t0.to_set().insert(file@).contains(x) implies t1.to_set().contains(x) by {
                    if x == file@ {
                        assert(t1[i as int] == x);
                        assert(t1.contains(x));
                    } else {
                        let k = choose|k: int| 0 <= k < t0.len() && t0[k] == x;
                        assert(t1[k] == x);
                        assert(t1.contains(x));
                    }
                }
            }
        }
        if duplicate {
            proof {
                assert(rv0[pos as int] == file@);
                assert(rv0.contains(file@));
                assert(rv0.to_set().insert(file@) =~= rv0.to_set());
            }
        } else {
            proof {
                if pos < n {
                    crate::order::lemma_seq_char_lt_connex(rv0[pos as int], file@);
                    assert(crate::order::seq_char_lt(file@, rv0[pos as int]));
                    assert forall|k: int|
                        pos <= k < n implies crate::order::seq_char_lt(
                        file@,
                        #[trigger] rv0[k],
                    ) by {
                        if k > pos {
                            crate::order::lemma_seq_char_lt_trans(
                                file@,
                                rv0[pos as int],
                                rv0[k],
                            );
                        }
                    }
                }
            }
            let ghost rv0_c = rv0;
            let ghost posg = pos as int;
            r.insert(pos, file.clone());
            proof {
                let rv1 = r@.map_values(|s: String| s@);
                assert(rv1 =~= rv0_c.insert(posg, file@));
                assert forall|a: int, b: int|
                    0 <= a < b < rv1.len() implies crate::order::seq_char_lt(
                    (#[trigger] r@[a])@,
                    (#[trigger] r@[b])@,
                ) by {
                    assert(r@[a]@ == rv1[a] && r@[b]@ == rv1[b]);
                    if a < posg && b < posg {
                        assert(rv1[a] == rv0_c[a] && rv1[b] == rv0_c[b]);
                    } else if a < posg && b == posg {
                        assert(rv1[a] == rv0_c[a] && rv1[b] == file@);
                    } else if a < posg {
                        assert(rv1[a] == rv0_c[a] && rv1[b] == rv0_c[b - 1]);
                        if a == b - 1 {
                        } else {
                        }
                    } else if a == posg {
                        assert(rv1[a] == file@ && rv1[b] == rv0_c[b - 1]);
                    } else {
                        assert(rv1[a] == rv0_c[a - 1] && rv1[b] == rv0_c[b - 1]);
                    }
                }
                assert(rv1.to_set() =~= rv0_c.to_set().insert(file@)) by {
                    assert forall|x: Seq<char>|
                        rv1.to_set().contains(x) implies rv0_c.to_set().insert(file@).contains(
                        x,
                    ) by {
                        let k = choose|k: int| 0 <= k < rv1.len() && rv1[k] == x;
                        if k < posg {
                            assert(rv0_c[k] == x);
                            assert(rv0_c.contains(x));
                        } else if k > posg {
                            assert(rv0_c[k - 1] == x);
                            assert(rv0_c.contains(x));
                        }
                    }
                    assert forall|x: Seq<char>|
                        rv0_c.to_set().insert(file@).contains(x) implies rv1.to_set().contains(
                        x,
                    ) by {
                        if x == file@ {
                            assert(rv1[posg] == x);
                            assert(rv1.contains(x));
                        } else {
                            let k = choose|k: int| 0 <= k < rv0_c.len() && rv0_c[k] == x;
                            if k < posg {
                                assert(rv1[k] == x);
                            } else {
                                assert(rv1[k + 1] == x);
                            }
                            assert(rv1.contains(x));
                        }
                    }
                }
            }
        }
        i = i + 1;
    }
    proof {
        assert(all.take(all.len() as int) =~= all);
    }
    r
}

/// The hunks of one file, in the order the diff produced them.
pub fn hunks_for_file(hunks: &Vec<DiffHunk>, file: &str) -> (r: Vec<DiffHunk>)
    ensures
        r@.map_values(|h: DiffHunk| h@) == hunks@.map_values(|h: DiffHunk| h@).filter(
            |h: DiffHunkV| h.file == file@,
        ),
{
    let ghost pred = |h: DiffHunkV| h.file == file@;
    let mut r: Vec<DiffHunk> = Vec::new();
    let mut i: usize = 0;
    proof {
        reveal_with_fuel(Seq::filter, 2);
        assert(hunks@.map_values(|h: DiffHunk| h@).take(0) =~= Seq::<DiffHunkV>::empty());
        assert(r@.map_values(|h: DiffHunk| h@) =~= Seq::<DiffHunkV>::empty());
        assert(Seq::<DiffHunkV>::empty().filter(pred) =~= Seq::<DiffHunkV>::empty());
    }
    while i < hunks.len()
        invariant
            i <= hunks@.len(),
            pred == (|h: DiffHunkV| h.file == file@),
            r@.map_values(|h: DiffHunk| h@) == hunks@.map_values(|h: DiffHunk| h@).take(
                i as int,
            ).filter(pred),
        decreases hunks@.len() - i,
    {
        let ghost prefix = hunks@.map_values(|h: DiffHunk| h@).take(i as int);
        let ghost all = hunks@.map_values(|h: DiffHunk| h@);
        let h = &hunks[i];
        let keep = crate::strutil::str_eq(h.file.as_str(), file);
        proof {
            reveal_with_fuel(Seq::filter, 2);
            let single = seq![h@];
            assert(all.take(i + 1) =~= prefix + single);
            Seq::filter_distributes_over_add(prefix, single, pred);
            assert(single.drop_last() =~= Seq::<DiffHunkV>::empty());
            assert(Seq::<DiffHunkV>::empty().filter(pred) =~= Seq::<DiffHunkV>::empty());
            if pred(h@) {
                assert(single.filter(pred) =~= single);
            } else {
                assert(single.filter(pred) =~= Seq::<DiffHunkV>::empty());
            }
        }
        if keep {
            r.push(h.clone());
            proof {
                assert(r@.map_values(|h: DiffHunk| h@) =~= prefix.filter(pred) + seq![h@]);
                assert(all.take(i + 1).filter(pred) =~= prefix.filter(pred) + seq![h@]);
            }
        } else {
            proof {
                assert(all.take(i + 1).filter(pred) =~= prefix.filter(pred));
            }
        }
        i = i + 1;
    }
    proof {
        assert(hunks@.map_values(|h: DiffHunk| h@).take(hunks@.len() as int) =~= hunks@.map_values(
            |h: DiffHunk| h@,
        ));
    }
    r
}

} // verus!
