//! The hunks of one file that a branch claims: sorted by first line and
//! pairwise disjoint.
use vstd::prelude::*;
use crate::hunk::Hunk;
use crate::text::has_char;

verus! {

/// Hunks that are each well-formed, sorted by first line, and pairwise disjoint.
pub open spec fn hunks_wf(hs: Seq<Hunk>) -> bool {
    &&& forall|i: int| 0 <= i < hs.len() ==> (#[trigger] hs[i]).wf()
    &&& forall|i: int, j: int| 0 <= i < j < hs.len() ==> #[trigger] hs[i].end < #[trigger] hs[j].start
}

/// A path that the ownership text can carry: non-empty, without `:` or a line break.
pub open spec fn path_wf(p: Seq<char>) -> bool {
    p.len() > 0 && !has_char(p, ':') && !has_char(p, '\n')
}

/// `new` is `old` with `h` added, last writer winning: it holds `h` and every
/// hunk of `old` that does not overlap `h`, and nothing else, in order.
pub open spec fn added(old: Seq<Hunk>, new: Seq<Hunk>, h: Hunk) -> bool {
    &&& hunks_wf(new)
    &&& forall|x: Hunk| new.contains(x) <==> (x == h || (old.contains(x) && !x.overlaps(h)))
}

/// Sorted, disjoint hunk lists that hold the same hunks are the same list, so
/// `added` fixes the result of an insertion.
pub proof fn lemma_sorted_determined(a: Seq<Hunk>, b: Seq<Hunk>)
    requires
        hunks_wf(a),
        hunks_wf(b),
        forall|x: Hunk| a.contains(x) <==> b.contains(x),
    ensures
        a == b,
    decreases a.len(),
{
    if a.len() == 0 {
        if b.len() > 0 {
            assert(b.contains(b[0]));
        }
        assert(a =~= b);
    } else {
        assert(a.contains(a[0]));
        assert(b.len() > 0);
        assert(b.contains(b[0]));
        let j = choose|j: int| 0 <= j < b.len() && b[j] == a[0];
        let i = choose|i: int| 0 <= i < a.len() && a[i] == b[0];
        if i > 0 {
            assert(a[0].end < a[i].start);
            assert(a[0].wf());
            if j > 0 {
                assert(b[0].end < b[j].start);
                assert(b[0].wf());
            }
        }
        if i == 0 && j > 0 {
            assert(b[0].end < b[j].start);
            assert(b[0].wf());
        }
        assert(a[0] == b[0]);
        let a1 = a.drop_first();
        let b1 = b.drop_first();
        assert forall|x: Hunk| a1.contains(x) <==> b1.contains(x) by {
            if a1.contains(x) {
                let k = choose|k: int| 0 <= k < a1.len() && a1[k] == x;
                assert(a[k + 1] == x);
                assert(a[0].end < a[k + 1].start);
                assert(a[0].wf());
                assert(b.contains(x));
                let m = choose|m: int| 0 <= m < b.len() && b[m] == x;
                assert(m != 0);
                assert(b1[m - 1] == x);
            }
            if b1.contains(x) {
                let k = choose|k: int| 0 <= k < b1.len() && b1[k] == x;
                assert(b[k + 1] == x);
                assert(b[0].end < b[k + 1].start);
                assert(b[0].wf());
                assert(a.contains(x));
                let m = choose|m: int| 0 <= m < a.len() && a[m] == x;
                assert(m != 0);
                assert(a1[m - 1] == x);
            }
        }
        assert forall|p: int| 0 <= p < a1.len() implies (#[trigger] a1[p]).wf() by {
            assert(a1[p] == a[p + 1]);
        }
        assert forall|p: int, q: int| 0 <= p < q < a1.len() implies #[trigger] a1[p].end < #[trigger] a1[q].start by {
            assert(a1[p] == a[p + 1] && a1[q] == a[q + 1]);
        }
        assert forall|p: int| 0 <= p < b1.len() implies (#[trigger] b1[p]).wf() by {
            assert(b1[p] == b[p + 1]);
        }
        assert forall|p: int, q: int| 0 <= p < q < b1.len() implies #[trigger] b1[p].end < #[trigger] b1[q].start by {
            assert(b1[p] == b[p + 1] && b1[q] == b[q + 1]);
        }
        lemma_sorted_determined(a1, b1);
        assert(a =~= b) by {
            assert forall|p: int| 0 <= p < a.len() implies a[p] == b[p] by {
                if p > 0 {
                    assert(a[p] == a1[p - 1]);
                    assert(b[p] == b1[p - 1]);
                }
            }
        }
    }
}

#[derive(Debug)]
pub struct FileOwnership {
    pub file_path: String,
    pub hunks: Vec<Hunk>,
}

impl View for FileOwnership {
    type V = (Seq<char>, Seq<Hunk>);

    open spec fn view(&self) -> (Seq<char>, Seq<Hunk>) {
        (self.file_path@, self.hunks@)
    }
}

/// `old` with `h` put in place of the hunks it overlaps.
fn insert_hunk(old: &Vec<Hunk>, h: Hunk) -> (r: Vec<Hunk>)
    requires
        hunks_wf(old@),
        h.wf(),
    ensures
        added(old@, r@, h),
{
    let n = old.len();
    let mut out: Vec<Hunk> = Vec::new();
    let mut i: usize = 0;
    while i < n && old[i].end < h.start
        invariant
            i <= n,
            n == old@.len(),
            out@ == old@.subrange(0, i as int),
            forall|k: int| 0 <= k < i ==> (#[trigger] old@[k]).end < h.start,
        decreases n - i,
    {
        out.push(old[i]);
        i = i + 1;
    }
    let mut j: usize = i;
    while j < n && old[j].start <= h.end
        invariant
            i <= j <= n,
            n == old@.len(),
            forall|k: int| i <= k < j ==> (#[trigger] old@[k]).start <= h.end,
        decreases n - j,
    {
        j = j + 1;
    }
    out.push(h);
    let mut k: usize = j;
    while k < n
        invariant
            j <= k <= n,
            n == old@.len(),
            out@ == old@.subrange(0, i as int).push(h) + old@.subrange(j as int, k as int),
        decreases n - k,
    {
        out.push(old[k]);
        proof {
            assert(out@ =~= old@.subrange(0, i as int).push(h) + old@.subrange(j as int, k + 1));
        }
        k = k + 1;
    }
    proof {
        let s = out@;
        let o = old@;
        let pre = i as int;
        let skip = (j - i) as int;
        // Position of each element of `out` in `old`.
        assert forall|a: int| 0 <= a < s.len() && a != pre implies
            (#[trigger] s[a]) == o[if a < pre { a } else { a - 1 + skip }] by {
        }
        // Hunks after the skipped run begin after `h` ends.
        assert forall|m: int| j <= m < n implies (#[trigger] o[m]).start > h.end by {
            if m > j {
                assert(o[j as int].end < o[m].start);
                assert(o[j as int].wf());
            }
        }
        // Skipped hunks all overlap `h`.
        assert forall|m: int| i <= m < j implies (#[trigger] o[m]).overlaps(h) by {
            if m > i {
                assert(o[i as int].end < o[m].start);
                assert(o[m].wf());
            }
        }
        assert forall|a: int| 0 <= a < s.len() implies (#[trigger] s[a]).wf() by {
            if a != pre {
                let b = if a < pre { a } else { a - 1 + skip };
                assert(o[b].wf());
            }
        }
        assert forall|a: int, b: int| 0 <= a < b < s.len() implies #[trigger] s[a].end < #[trigger] s[b].start by {
            let a2 = if a < pre { a } else { a - 1 + skip };
            let b2 = if b < pre { b } else { b - 1 + skip };
            if a == pre {
                assert(o[b2].start > h.end);
            } else if b == pre {
                assert(o[a2].end < h.start);
            } else {
                assert(o[a2].end < o[b2].start);
            }
        }
        assert forall|x: Hunk| s.contains(x) <==> (x == h || (o.contains(x) && !x.overlaps(h))) by {
            if s.contains(x) {
                let a = choose|a: int| 0 <= a < s.len() && s[a] == x;
                if a != pre {
                    let a2 = if a < pre { a } else { a - 1 + skip };
                    assert(o[a2] == x);
                    assert(o.contains(x));
                    if a < pre {
                        assert(o[a2].end < h.start);
                    } else {
                        assert(o[a2].start > h.end);
                    }
                }
            }
            if x == h {
                assert(s[pre] == h);
            } else if o.contains(x) && !x.overlaps(h) {
                let m = choose|m: int| 0 <= m < o.len() && o[m] == x;
                if m < i {
                    assert(s[m] == x);
                } else if m >= j {
                    assert(s[m + 1 - skip] == x);
                }
            }
        }
    }
    out
}

impl FileOwnership {
    pub open spec fn wf(&self) -> bool {
        path_wf(self.file_path@) && hunks_wf(self.hunks@)
    }

    /// A file with no hunks claimed.
    pub fn new(file_path: String) -> (r: FileOwnership)
        ensures
            r@ == (file_path@, Seq::<Hunk>::empty()),
    {
        FileOwnership { file_path, hunks: Vec::new() }
    }

    /// Claims `h`; hunks that overlap it are dropped in its favour.
    pub fn add(&mut self, h: Hunk)
        requires
            hunks_wf(old(self).hunks@),
            h.wf(),
        ensures
            final(self).file_path@ == old(self).file_path@,
            added(old(self).hunks@, final(self).hunks@, h),
    {
        let hs = insert_hunk(&self.hunks, h);
        self.hunks = hs;
    }
}

} // verus!
