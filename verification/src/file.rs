//! Turning raw document content into rows.
//!
//! Raw content arrives as bytes. Loading expands every literal tab into
//! `tab_size` space characters, strips carriage returns, and splits on line
//! feeds; empty content yields a single empty row, so a buffer never has zero
//! rows. Content that does not parse into complete characters is refused.

use vstd::prelude::*;

use crate::encoding::{
    byte_offset_of, char_count, is_well_formed, lead_width, lead_width_of, lemma_wf_concat,
    lemma_wf_take, rows_view, step_width, well_formed,
};
use crate::error::EditError;

verus! {

/// `n` space characters.
pub open spec fn spaces(n: nat) -> Seq<u8> {
    Seq::new(n, |i: int| 32u8)
}

/// The rows that raw content `s` loads to: every literal tab becomes `tab`
/// spaces, carriage returns are stripped, and the text splits on line feeds.
/// Empty content yields one empty row.
pub open spec fn load_rows(s: Seq<u8>, tab: nat) -> Seq<Seq<u8>>
    decreases s.len(),
{
    if s.len() == 0 {
        seq![Seq::<u8>::empty()]
    } else {
        let w = step_width(s) as int;
        let rest = load_rows(s.skip(w), tab);
        if s[0] == 10u8 {
            seq![Seq::<u8>::empty()] + rest
        } else if s[0] == 13u8 {
            rest
        } else if s[0] == 9u8 {
            rest.update(0, spaces(tab) + rest[0])
        } else {
            rest.update(0, s.take(w) + rest[0])
        }
    }
}

/// Loading always yields at least one row.
pub proof fn lemma_load_rows_len(s: Seq<u8>, tab: nat)
    ensures
        load_rows(s, tab).len() >= 1,
    decreases s.len(),
{
    if s.len() > 0 {
        lemma_load_rows_len(s.skip(step_width(s) as int), tab);
    }
}

/// A run of spaces is made of complete characters, one per space.
pub proof fn lemma_spaces_wf(n: nat)
    ensures
        well_formed(spaces(n)),
        char_count(spaces(n)) == n,
    decreases n,
{
    if n > 0 {
        assert(spaces(n).skip(1) =~= spaces((n - 1) as nat));
        lemma_spaces_wf((n - 1) as nat);
    }
}

/// Law: every row that loading well-formed content yields is itself made of
/// complete characters.
pub proof fn lemma_load_rows_wf(s: Seq<u8>, tab: nat)
    requires
        well_formed(s),
    ensures
        load_rows(s, tab).len() >= 1,
        forall|i: int|
            0 <= i < load_rows(s, tab).len() ==> well_formed(#[trigger] load_rows(s, tab)[i]),
    decreases s.len(),
{
    lemma_load_rows_len(s, tab);
    if s.len() > 0 {
        let w = lead_width(s[0]) as int;
        lemma_load_rows_wf(s.skip(w), tab);
        let rest = load_rows(s.skip(w), tab);
        let rows = load_rows(s, tab);
        if s[0] == 10u8 {
            assert(well_formed(Seq::<u8>::empty()));
            assert(forall|i: int| 0 <= i < rows.len() ==> rows[i] == if i == 0 {
                Seq::<u8>::empty()
            } else {
                rest[i - 1]
            });
        } else if s[0] == 13u8 {
        } else if s[0] == 9u8 {
            lemma_spaces_wf(tab);
            lemma_wf_concat(spaces(tab), rest[0]);
        } else {
            lemma_wf_take(s, 1);
            assert(step_width(s) == w);
            assert(byte_offset_of(s.skip(w), 0) == 0);
            assert(byte_offset_of(s, 1) == w);
            lemma_wf_concat(s.take(w), rest[0]);
        }
    }
}

/// Read access to a loaded document.
pub trait ReadFile {
    /// The rows this file holds.
    spec fn rows(&self) -> Seq<Seq<u8>>;

    /// All rows of the document, top to bottom.
    fn all_lines(&self) -> (r: Vec<Vec<u8>>)
        ensures
            rows_view(r@) == self.rows(),
    ;
}

/// A document held in memory, already split into rows.
pub struct LocalFile {
    lines: Vec<Vec<u8>>,
}

impl View for LocalFile {
    type V = Seq<Seq<u8>>;

    closed spec fn view(&self) -> Seq<Seq<u8>> {
        rows_view(self.lines@)
    }
}

impl ReadFile for LocalFile {
    open spec fn rows(&self) -> Seq<Seq<u8>> {
        self@
    }

    fn all_lines(&self) -> (r: Vec<Vec<u8>>) {
        let mut out: Vec<Vec<u8>> = Vec::new();
        let n = self.lines.len();
        let mut i: usize = 0;
        while i < n
            invariant
                i <= n,
                n == self.lines@.len(),
                out@.len() == i,
                forall|k: int| 0 <= k < i ==> #[trigger] out@[k]@ == self.lines@[k]@,
            decreases n - i,
        {
            let row = &self.lines[i];
            let mut copy: Vec<u8> = Vec::new();
            let mut j: usize = 0;
            let m = row.len();
            while j < m
                invariant
                    j <= m,
                    m == row@.len(),
                    copy@ == row@.take(j as int),
                decreases m - j,
            {
                copy.push(row[j]);
                proof {
                    assert(row@.take(j as int).push(row@[j as int]) =~= row@.take(j + 1));
                }
                j = j + 1;
            }
            proof {
                assert(row@.take(m as int) =~= row@);
            }
            out.push(copy);
            i = i + 1;
        }
        proof {
            assert(rows_view(out@) =~= rows_view(self.lines@));
        }
        out
    }
}

impl LocalFile {
    /// Builds a document from raw content. Content whose bytes do not parse
    /// into complete characters is refused with `LoadFailure`; otherwise the
    /// rows are exactly what [`load_rows`] describes.
    pub fn from_bytes(content: &Vec<u8>, tab_size: u16) -> (r: Result<LocalFile, EditError>)
        requires
            tab_size >= 1,
        ensures
            r is Ok <==> well_formed(content@),
            r is Err ==> r == Err::<LocalFile, EditError>(EditError::LoadFailure),
            r is Ok ==> r->Ok_0@ == load_rows(content@, tab_size as nat),
    {
        if !is_well_formed(content) {
            return Err(EditError::LoadFailure);
        }
        let ghost sv = content@;
        let ghost tab = tab_size as nat;
        let n = content.len();
        let mut finished: Vec<Vec<u8>> = Vec::new();
        let mut cur: Vec<u8> = Vec::new();
        let mut i: usize = 0;
        proof {
            assert(sv.skip(0) =~= sv);
            lemma_load_rows_len(sv, tab);
            let rows = load_rows(sv, tab);
            assert(cur@ + rows[0] =~= rows[0]);
            assert(rows_view(finished@) + seq![rows[0]] + rows.skip(1) =~= rows);
        }
        while i < n
            invariant
                i <= n,
                n == sv.len(),
                sv == content@,
                tab == tab_size as nat,
                tab_size >= 1,
                well_formed(sv.skip(i as int)),
                load_rows(sv, tab) == rows_view(finished@) + seq![
                    cur@ + load_rows(sv.skip(i as int), tab)[0],
                ] + load_rows(sv.skip(i as int), tab).skip(1),
            decreases n - i,
        {
            let b = content[i];
            let w = lead_width_of(b);
            proof {
                let suf = sv.skip(i as int);
                assert(suf[0] == sv[i as int]);
                assert(suf.skip(w as int) =~= sv.skip(i + w));
                lemma_load_rows_len(sv.skip(i + w), tab);
            }
            let ghost pre = load_rows(sv.skip(i as int), tab);
            let ghost post = load_rows(sv.skip(i + w), tab);
            let ghost fin0 = finished@;
            let ghost cur0 = cur@;
            if b == 10 {
                finished.push(cur);
                cur = Vec::new();
                proof {
                    assert(pre == seq![Seq::<u8>::empty()] + post);
                    assert(pre[0] =~= Seq::<u8>::empty());
                    assert(pre.skip(1) =~= post);
                    assert(rows_view(finished@) =~= rows_view(fin0) + seq![cur0]);
                    assert(post =~= seq![post[0]] + post.skip(1));
                    assert(rows_view(fin0) + seq![cur0 + pre[0]] + pre.skip(1) =~= rows_view(
                        finished@,
                    ) + seq![cur@ + post[0]] + post.skip(1));
                }
            } else if b == 13 {
                proof {
                    assert(pre == post);
                }
            } else if b == 9 {
                let mut t: usize = 0;
                let width = tab_size as usize;
                while t < width
                    invariant
                        t <= width,
                        cur@ == cur0 + spaces(t as nat),
                    decreases width - t,
                {
                    cur.push(32);
                    proof {
                        assert((cur0 + spaces(t as nat)).push(32u8) =~= cur0 + spaces(
                            (t + 1) as nat,
                        ));
                    }
                    t = t + 1;
                }
                proof {
                    assert(pre == post.update(0, spaces(tab) + post[0]));
                    assert(pre[0] == spaces(tab) + post[0]);
                    assert(pre.skip(1) =~= post.skip(1));
                    assert(cur0 + (spaces(tab) + post[0]) =~= (cur0 + spaces(tab)) + post[0]);
                    assert(rows_view(fin0) + seq![cur0 + pre[0]] + pre.skip(1) =~= rows_view(
                        finished@,
                    ) + seq![cur@ + post[0]] + post.skip(1));
                }
            } else {
                let ghost seg = sv.skip(i as int).take(w as int);
                let mut j: usize = 0;
                while j < w
                    invariant
                        j <= w,
                        i + w <= n,
                        n == sv.len(),
                        sv == content@,
                        seg == sv.skip(i as int).take(w as int),
                        cur@ == cur0 + seg.take(j as int),
                    decreases w - j,
                {
                    cur.push(content[i + j]);
                    proof {
                        assert(seg[j as int] == sv[i + j]);
                        assert((cur0 + seg.take(j as int)).push(sv[i + j]) =~= cur0 + seg.take(
                            j + 1,
                        ));
                    }
                    j = j + 1;
                }
                proof {
                    assert(seg.take(w as int) =~= seg);
                    assert(pre == post.update(0, seg + post[0]));
                    assert(pre[0] == seg + post[0]);
                    assert(pre.skip(1) =~= post.skip(1));
                    assert(cur0 + (seg + post[0]) =~= (cur0 + seg) + post[0]);
                    assert(rows_view(fin0) + seq![cur0 + pre[0]] + pre.skip(1) =~= rows_view(
                        finished@,
                    ) + seq![cur@ + post[0]] + post.skip(1));
                }
            }
            i = i + w;
        }
        proof {
            assert(sv.skip(n as int) =~= Seq::<u8>::empty());
            assert(load_rows(sv.skip(n as int), tab) == seq![Seq::<u8>::empty()]);
        }
        let ghost fin0 = finished@;
        let ghost cur0 = cur@;
        finished.push(cur);
        proof {
            assert(rows_view(finished@) =~= rows_view(fin0) + seq![cur0]);
            assert(cur0 + Seq::<u8>::empty() =~= cur0);
            assert(load_rows(sv, tab) =~= rows_view(finished@));
        }
        Ok(LocalFile { lines: finished })
    }
}

} // verus!
