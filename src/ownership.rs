//! The regions that a branch claims across files, and their text form: one
//! line per file, `path:hunk,hunk,...`.
use vstd::prelude::*;
use crate::file_ownership::{FileOwnership, hunks_wf, path_wf, added};
use crate::hunk::{Hunk, hunk_text, parse_hunk_spec, parse_hunk, write_hunk, lemma_hunk_text_lacks, lemma_hunk_round_trip};
use crate::text::{split, join, split_list, separable, has_char, split_chars, to_chars, from_chars, lemma_split_join, lemma_split_list_join, lemma_join_lacks};

verus! {

/// The text of a file's hunks, separated by `,`.
pub open spec fn hunks_text(hs: Seq<Hunk>) -> Seq<char> {
    join(hs.map_values(|h: Hunk| hunk_text(h)), ',')
}

/// The line of one file: its path, `:`, then its hunks.
pub open spec fn file_text(f: (Seq<char>, Seq<Hunk>)) -> Seq<char> {
    join(seq![f.0, hunks_text(f.1)], ':')
}

/// The text of a whole ownership: its files' lines separated by line breaks.
pub open spec fn ownership_text(fs: Seq<(Seq<char>, Seq<Hunk>)>) -> Seq<char> {
    join(fs.map_values(|f: (Seq<char>, Seq<Hunk>)| file_text(f)), '\n')
}

/// The hunks that the pieces denote, if each denotes one.
pub open spec fn parse_hunks(pieces: Seq<Seq<char>>) -> Option<Seq<Hunk>> {
    if forall|i: int| 0 <= i < pieces.len() ==> (#[trigger] parse_hunk_spec(pieces[i])).is_some() {
        Some(Seq::new(pieces.len(), |i: int| parse_hunk_spec(pieces[i]).unwrap()))
    } else {
        None
    }
}

/// The file that a line denotes, if it is one.
pub open spec fn parse_file_spec(s: Seq<char>) -> Option<(Seq<char>, Seq<Hunk>)> {
    let p = split(s, ':');
    if p.len() == 2 && path_wf(p[0]) {
        match parse_hunks(split_list(p[1], ',')) {
            Some(hs) => if hunks_wf(hs) { Some((p[0], hs)) } else { None },
            None => None,
        }
    } else {
        None
    }
}

pub open spec fn paths_distinct(fs: Seq<(Seq<char>, Seq<Hunk>)>) -> bool {
    forall|i: int, j: int| 0 <= i < j < fs.len() ==> #[trigger] fs[i].0 != #[trigger] fs[j].0
}

/// Files that each can be written and read back, under distinct paths.
pub open spec fn files_wf(fs: Seq<(Seq<char>, Seq<Hunk>)>) -> bool {
    &&& forall|i: int| 0 <= i < fs.len() ==> path_wf((#[trigger] fs[i]).0) && hunks_wf(fs[i].1)
    &&& paths_distinct(fs)
}

/// The ownership that a text denotes, if it is one.
pub open spec fn parse_ownership_spec(s: Seq<char>) -> Option<Seq<(Seq<char>, Seq<Hunk>)>> {
    let lines = split_list(s, '\n');
    if forall|i: int| 0 <= i < lines.len() ==> (#[trigger] parse_file_spec(lines[i])).is_some() {
        let fs = Seq::new(lines.len(), |i: int| parse_file_spec(lines[i]).unwrap());
        if paths_distinct(fs) { Some(fs) } else { None }
    } else {
        None
    }
}

proof fn lemma_hunks_text(hs: Seq<Hunk>)
    requires
        hunks_wf(hs),
    ensures
        !has_char(hunks_text(hs), ':'),
        !has_char(hunks_text(hs), '\n'),
        parse_hunks(split_list(hunks_text(hs), ',')) == Some(hs),
{
    let ts = hs.map_values(|h: Hunk| hunk_text(h));
    assert forall|i: int| 0 <= i < ts.len() implies
        ts[i].len() > 0 && !has_char(#[trigger] ts[i], ',') && !has_char(ts[i], ':') && !has_char(ts[i], '\n') by {
        lemma_hunk_text_lacks(hs[i], ',');
        lemma_hunk_text_lacks(hs[i], ':');
        lemma_hunk_text_lacks(hs[i], '\n');
    }
    lemma_join_lacks(ts, ',', ':');
    lemma_join_lacks(ts, ',', '\n');
    assert(separable(ts, ','));
    lemma_split_list_join(ts, ',');
    assert forall|i: int| 0 <= i < ts.len() implies (#[trigger] parse_hunk_spec(ts[i])) == Some(hs[i]) by {
        assert(hs[i].wf());
        lemma_hunk_round_trip(hs[i]);
    }
    assert(Seq::new(ts.len(), |i: int| parse_hunk_spec(ts[i]).unwrap()) =~= hs);
}

proof fn lemma_file_text(f: (Seq<char>, Seq<Hunk>))
    requires
        path_wf(f.0),
        hunks_wf(f.1),
    ensures
        file_text(f).len() > 0,
        !has_char(file_text(f), '\n'),
        parse_file_spec(file_text(f)) == Some(f),
{
    lemma_hunks_text(f.1);
    let p = seq![f.0, hunks_text(f.1)];
    assert forall|i: int| 0 <= i < p.len() implies !has_char(#[trigger] p[i], ':') && !has_char(p[i], '\n') by {}
    lemma_split_join(p, ':');
    lemma_join_lacks(p, ':', '\n');
    lemma_join_pair(f.0, hunks_text(f.1), ':');
}

proof fn lemma_join_pair(a: Seq<char>, b: Seq<char>, sep: char)
    ensures
        join(seq![a, b], sep) == a.push(sep) + b,
{
    let p = seq![a, b];
    assert(p.drop_last() =~= seq![a]);
    assert(seq![a][0] == a);
    assert(join(seq![a], sep) == a);
    assert(p.last() == b);
}

/// Every well-formed ownership reads back from its text.
pub proof fn lemma_ownership_round_trip(fs: Seq<(Seq<char>, Seq<Hunk>)>)
    requires
        files_wf(fs),
    ensures
        parse_ownership_spec(ownership_text(fs)) == Some(fs),
{
    let ts = fs.map_values(|f: (Seq<char>, Seq<Hunk>)| file_text(f));
    assert forall|i: int| 0 <= i < ts.len() implies
        ts[i].len() > 0 && !has_char(#[trigger] ts[i], '\n') && parse_file_spec(ts[i]) == Some(fs[i]) by {
        assert(path_wf(fs[i].0) && hunks_wf(fs[i].1));
        lemma_file_text(fs[i]);
    }
    lemma_split_list_join(ts, '\n');
    let lines = split_list(ownership_text(fs), '\n');
    assert(lines == ts);
    assert forall|i: int| 0 <= i < lines.len() implies (#[trigger] parse_file_spec(lines[i])).is_some() by {
        assert(lines[i] == ts[i]);
    }
    assert(Seq::new(lines.len(), |i: int| parse_file_spec(lines[i]).unwrap()) =~= fs);
}

/// Why an ownership text could not be read: the piece of it at fault.
#[derive(Debug)]
pub struct OwnershipParseError {
    pub fragment: String,
}

#[derive(Debug)]
pub struct Ownership {
    pub files: Vec<FileOwnership>,
}

impl View for Ownership {
    type V = Seq<(Seq<char>, Seq<Hunk>)>;

    open spec fn view(&self) -> Seq<(Seq<char>, Seq<Hunk>)> {
        self.files@.map_values(|f: FileOwnership| f@)
    }
}

fn write_chars(s: &Vec<char>, out: &mut Vec<char>)
    ensures
        final(out)@ == old(out)@ + s@,
{
    let mut i: usize = 0;
    while i < s.len()
        invariant
            i <= s@.len(),
            out@ == old(out)@ + s@.subrange(0, i as int),
        decreases s@.len() - i,
    {
        out.push(s[i]);
        i = i + 1;
        proof {
            assert(out@ =~= old(out)@ + s@.subrange(0, i as int));
        }
    }
    proof {
        assert(s@.subrange(0, s@.len() as int) =~= s@);
    }
}

fn write_file(f: &FileOwnership, out: &mut Vec<char>)
    ensures
        final(out)@ == old(out)@ + file_text(f@),
{
    let path = to_chars(f.file_path.as_str());
    write_chars(&path, out);
    out.push(':');
    let ghost base = out@;
    let ghost ts = f.hunks@.map_values(|h: Hunk| hunk_text(h));
    let mut i: usize = 0;
    while i < f.hunks.len()
        invariant
            i <= f.hunks@.len(),
            ts == f.hunks@.map_values(|h: Hunk| hunk_text(h)),
            out@ == base + join(ts.subrange(0, i as int), ','),
        decreases f.hunks@.len() - i,
    {
        let ghost before = out@;
        if i > 0 {
            out.push(',');
        }
        write_hunk(&f.hunks[i], out);
        proof {
            let t = ts.subrange(0, i + 1);
            assert(t.drop_last() =~= ts.subrange(0, i as int));
            if i == 0 {
                assert(t.len() == 1);
                assert(join(ts.subrange(0, i as int), ',') =~= Seq::<char>::empty());
                assert(out@ =~= base + join(t, ','));
            } else {
                assert(out@ =~= base + join(t, ','));
            }
        }
        i = i + 1;
    }
    proof {
        assert(ts.subrange(0, ts.len() as int) =~= ts);
        lemma_join_pair(f@.0, hunks_text(f@.1), ':');
        assert(out@ =~= old(out)@ + file_text(f@));
    }
}

/// Reads one file's line.
fn parse_file(s: &Vec<char>) -> (r: Option<FileOwnership>)
    ensures
        r.is_some() == parse_file_spec(s@).is_some(),
        r matches Some(f) ==> f@ == parse_file_spec(s@).unwrap(),
{
    let p = split_chars(s, ':');
    if p.len() != 2 {
        return None;
    }
    let path = &p[0];
    if path.len() == 0 {
        return None;
    }
    let mut i: usize = 0;
    while i < path.len()
        invariant
            i <= path@.len(),
            p@.len() == 2,
            path@ == split(s@, ':')[0],
            path@.len() > 0,
            forall|k: int| 0 <= k < i ==> path@[k] != ':' && path@[k] != '\n',
        decreases path@.len() - i,
    {
        if path[i] == ':' || path[i] == '\n' {
            return None;
        }
        i = i + 1;
    }
    proof {
        assert(path@ == split(s@, ':')[0]);
        assert(path_wf(path@));
    }
    let pieces: Vec<Vec<char>> = if p[1].len() == 0 { Vec::new() } else { split_chars(&p[1], ',') };
    let ghost ps = split_list(p@[1]@, ',');
    proof {
        assert(p@[1]@ == split(s@, ':')[1]);
    }
    let mut hunks: Vec<Hunk> = Vec::new();
    let mut k: usize = 0;
    while k < pieces.len()
        invariant
            k <= pieces@.len(),
            p@.len() == 2,
            split(s@, ':').len() == 2,
            path@ == split(s@, ':')[0],
            path_wf(path@),
            ps == split_list(split(s@, ':')[1], ','),
            pieces@.len() == ps.len(),
            forall|a: int| 0 <= a < ps.len() ==> #[trigger] pieces@[a]@ == ps[a],
            hunks@.len() == k,
            forall|a: int| 0 <= a < k ==> parse_hunk_spec(ps[a]) == Some(#[trigger] hunks@[a]),
            hunks_wf(hunks@),
        decreases pieces@.len() - k,
    {
        let h = match parse_hunk(&pieces[k]) {
            Some(h) => h,
            None => {
                proof {
                    assert(parse_hunk_spec(ps[k as int]).is_none());
                }
                return None;
            },
        };
        if k > 0 && h.start <= hunks[k - 1].end {
            proof {
                let all = Seq::new(ps.len(), |i: int| parse_hunk_spec(ps[i]).unwrap());
                if parse_hunks(ps).is_some() {
                    assert(all[k - 1] == hunks@[k - 1]);
                    assert(all[k as int] == h);
                    assert(!hunks_wf(all));
                }
            }
            return None;
        }
        proof {
            assert forall|a: int| 0 <= a < k implies #[trigger] hunks@[a].end < h.start by {
                if a < k - 1 {
                    assert(hunks@[a].end < hunks@[k - 1].start);
                    assert(hunks@[k - 1].wf());
                }
            }
        }
        hunks.push(h);
        k = k + 1;
    }
    proof {
        assert forall|i: int| 0 <= i < ps.len() implies (#[trigger] parse_hunk_spec(ps[i])).is_some() by {
            assert(parse_hunk_spec(ps[i]) == Some(hunks@[i]));
        }
        assert(Seq::new(ps.len(), |i: int| parse_hunk_spec(ps[i]).unwrap()) =~= hunks@);
    }
    let fp = from_chars(path);
    Some(FileOwnership { file_path: fp, hunks })
}

/// The index of the file under `path`, if there is one.
fn find_path(files: &Vec<FileOwnership>, path: &String) -> (r: Option<usize>)
    ensures
        r matches Some(m) ==> m < files@.len() && files@[m as int].file_path@ == path@,
        r is None ==> forall|a: int| 0 <= a < files@.len() ==> (#[trigger] files@[a]).file_path@ != path@,
{
    let mut m: usize = 0;
    while m < files.len()
        invariant
            m <= files@.len(),
            forall|a: int| 0 <= a < m ==> (#[trigger] files@[a]).file_path@ != path@,
        decreases files@.len() - m,
    {
        if files[m].file_path == *path {
            return Some(m);
        }
        m = m + 1;
    }
    None
}

impl Ownership {
    pub open spec fn wf(&self) -> bool {
        files_wf(self@)
    }

    /// An ownership that claims nothing.
    pub fn new() -> (r: Ownership)
        ensures
            r@ == Seq::<(Seq<char>, Seq<Hunk>)>::empty(),
    {
        let r = Ownership { files: Vec::new() };
        proof {
            assert(r@ =~= Seq::<(Seq<char>, Seq<Hunk>)>::empty());
        }
        r
    }

    /// The text form: one line `path:hunk,hunk` per file.
    pub fn to_text(&self) -> (r: String)
        ensures
            r@ == ownership_text(self@),
    {
        let mut out: Vec<char> = Vec::new();
        let ghost ts = self@.map_values(|f: (Seq<char>, Seq<Hunk>)| file_text(f));
        let mut i: usize = 0;
        while i < self.files.len()
            invariant
                i <= self.files@.len(),
                ts == self@.map_values(|f: (Seq<char>, Seq<Hunk>)| file_text(f)),
                out@ == join(ts.subrange(0, i as int), '\n'),
            decreases self.files@.len() - i,
        {
            if i > 0 {
                out.push('\n');
            }
            write_file(&self.files[i], &mut out);
            proof {
                let t = ts.subrange(0, i + 1);
                assert(t.drop_last() =~= ts.subrange(0, i as int));
                assert(self.files@[i as int]@ == self@[i as int]);
                if i == 0 {
                    assert(join(ts.subrange(0, i as int), '\n') =~= Seq::<char>::empty());
                    assert(out@ =~= join(t, '\n'));
                } else {
                    assert(out@ =~= join(t, '\n'));
                }
            }
            i = i + 1;
        }
        proof {
            assert(ts.subrange(0, ts.len() as int) =~= ts);
        }
        from_chars(&out)
    }

    /// Reads an ownership from its text form; the empty text claims nothing.
    pub fn parse(s: &str) -> (r: Result<Ownership, OwnershipParseError>)
        ensures
            r.is_ok() == parse_ownership_spec(s@).is_some(),
            r matches Ok(o) ==> o@ == parse_ownership_spec(s@).unwrap() && o.wf(),
    {
        let cs = to_chars(s);
        let lines: Vec<Vec<char>> = if cs.len() == 0 { Vec::new() } else { split_chars(&cs, '\n') };
        let ghost ls = split_list(s@, '\n');
        let mut files: Vec<FileOwnership> = Vec::new();
        let mut k: usize = 0;
        while k < lines.len()
            invariant
                k <= lines@.len(),
                ls == split_list(s@, '\n'),
                lines@.len() == ls.len(),
                forall|a: int| 0 <= a < ls.len() ==> #[trigger] lines@[a]@ == ls[a],
                files@.len() == k,
                forall|a: int| 0 <= a < k ==> parse_file_spec(ls[a]) == Some(#[trigger] files@[a]@),
                files_wf(files@.map_values(|f: FileOwnership| f@)),
            decreases lines@.len() - k,
        {
            let f = match parse_file(&lines[k]) {
                Some(f) => f,
                None => {
                    proof {
                        assert(parse_file_spec(ls[k as int]).is_none());
                    }
                    return Err(OwnershipParseError { fragment: from_chars(&lines[k]) });
                },
            };
            match find_path(&files, &f.file_path) {
                Some(m) => {
                    proof {
                        let all = Seq::new(ls.len(), |i: int| parse_file_spec(ls[i]).unwrap());
                        if parse_ownership_spec(s@).is_some() {
                            assert(all[m as int] == files@[m as int]@);
                            assert(all[k as int] == f@);
                            assert(all[m as int].0 == all[k as int].0);
                            assert(!paths_distinct(all));
                        }
                    }
                    return Err(OwnershipParseError { fragment: from_chars(&lines[k]) });
                },
                None => {},
            }
            let ghost v0 = files@.map_values(|f: FileOwnership| f@);
            let ghost fv = f@;
            proof {
                assert(parse_file_spec(ls[k as int]) == Some(f@));
            }
            files.push(f);
            proof {
                let v1 = files@.map_values(|f: FileOwnership| f@);
                assert(v1 =~= v0.push(fv));
                assert forall|a: int| 0 <= a < v1.len() implies
                    path_wf((#[trigger] v1[a]).0) && hunks_wf(v1[a].1) by {
                    if a < k {
                        assert(v1[a] == v0[a]);
                    }
                }
                assert forall|a: int, b: int| 0 <= a < b < v1.len() implies #[trigger] v1[a].0 != #[trigger] v1[b].0 by {
                    if b < k {
                        assert(v1[a] == v0[a] && v1[b] == v0[b]);
                    } else {
                        assert(v1[a] == files@[a]@);
                    }
                }
            }
            k = k + 1;
        }
        let o = Ownership { files };
        proof {
            assert forall|i: int| 0 <= i < ls.len() implies (#[trigger] parse_file_spec(ls[i])).is_some() by {
                assert(parse_file_spec(ls[i]) == Some(files@[i]@));
            }
            assert(Seq::new(ls.len(), |i: int| parse_file_spec(ls[i]).unwrap()) =~= o@);
        }
        Ok(o)
    }
}


impl Ownership {
    /// Claims hunk `h` of the file at `path`; within that file, hunks that
    /// overlap `h` are dropped in its favour. A new path is added at the end.
    pub fn add(&mut self, path: &String, h: Hunk)
        requires
            old(self).wf(),
            path_wf(path@),
            h.wf(),
        ensures
            final(self).wf(),
            forall|k: int| 0 <= k < old(self)@.len() && old(self)@[k].0 == path@ ==> {
                &&& final(self)@.len() == old(self)@.len()
                &&& final(self)@[k].0 == path@
                &&& added(old(self)@[k].1, final(self)@[k].1, h)
                &&& forall|a: int| 0 <= a < old(self)@.len() && a != k ==> final(self)@[a] == old(self)@[a]
            },
            (forall|k: int| 0 <= k < old(self)@.len() ==> old(self)@[k].0 != path@) ==>
                final(self)@ == old(self)@.push((path@, seq![h])),
    {
        let ghost v0 = self@;
        match find_path(&self.files, path) {
            Some(m) => {
                let mut f = self.files.remove(m);
                proof {
                    assert(v0[m as int] == f@);
                    assert(hunks_wf(v0[m as int].1));
                }
                f.add(h);
                self.files.insert(m, f);
                proof {
                    let v1 = self@;
                    assert forall|a: int| 0 <= a < v0.len() && a != m implies v1[a] == v0[a] by {
                        if a < m {
                            assert(v1[a] == old(self).files@[a]@);
                        } else {
                            assert(v1[a] == old(self).files@[a]@);
                        }
                    }
                    assert forall|a: int| 0 <= a < v1.len() implies
                        path_wf((#[trigger] v1[a]).0) && hunks_wf(v1[a].1) by {
                        if a != m {
                            assert(v1[a] == v0[a]);
                        }
                    }
                    assert forall|a: int, b: int| 0 <= a < b < v1.len() implies #[trigger] v1[a].0 != #[trigger] v1[b].0 by {
                        assert(v1[a].0 == v0[a].0);
                        assert(v1[b].0 == v0[b].0);
                    }
                    assert forall|k: int| 0 <= k < v0.len() && v0[k].0 == path@ implies k == m by {
                        if k != m {
                            assert(v0[k].0 == v0[m as int].0);
                        }
                    }
                }
            },
            None => {
                let mut f = FileOwnership::new(path.clone());
                f.add(h);
                proof {
                    assert(f@.1.contains(h));
                    assert(f@.1.len() == 1) by {
                        if f@.1.len() > 1 {
                            let x = f@.1[0];
                            let y = f@.1[1];
                            assert(f@.1.contains(x) && f@.1.contains(y));
                            assert(x.end < y.start);
                        }
                    }
                    assert(f@.1 =~= seq![h]);
                }
                self.files.push(f);
                proof {
                    let v1 = self@;
                    assert(v1 =~= v0.push((path@, seq![h])));
                    assert forall|a: int| 0 <= a < v1.len() implies
                        path_wf((#[trigger] v1[a]).0) && hunks_wf(v1[a].1) by {
                        if a < v0.len() {
                            assert(v1[a] == v0[a]);
                        }
                    }
                    assert forall|a: int, b: int| 0 <= a < b < v1.len() implies #[trigger] v1[a].0 != #[trigger] v1[b].0 by {
                        assert(v1[a] == v0[a]);
                        if b < v0.len() {
                            assert(v1[b] == v0[b]);
                        }
                    }
                }
            },
        }
    }

    /// Removes and returns the file at `path`; a file with no hunks if there is none.
    pub fn take(&mut self, path: &String) -> (r: FileOwnership)
        requires
            old(self).wf(),
        ensures
            final(self).wf(),
            forall|k: int| 0 <= k < old(self)@.len() && old(self)@[k].0 == path@ ==>
                r@ == old(self)@[k] && final(self)@ == old(self)@.remove(k),
            (forall|k: int| 0 <= k < old(self)@.len() ==> old(self)@[k].0 != path@) ==>
                r@ == (path@, Seq::<Hunk>::empty()) && final(self)@ == old(self)@,
    {
        let ghost v0 = self@;
        match find_path(&self.files, path) {
            Some(m) => {
                let f = self.files.remove(m);
                proof {
                    let v1 = self@;
                    assert(v0[m as int].0 == path@);
                    assert(v1 =~= v0.remove(m as int));
                    assert forall|k: int| 0 <= k < v0.len() && v0[k].0 == path@ implies k == m by {
                        if k != m {
                            assert(v0[k].0 == v0[m as int].0);
                        }
                    }
                    assert forall|a: int| 0 <= a < v1.len() implies
                        path_wf((#[trigger] v1[a]).0) && hunks_wf(v1[a].1) by {
                        if a < m { assert(v1[a] == v0[a]); } else { assert(v1[a] == v0[a + 1]); }
                    }
                    assert forall|a: int, b: int| 0 <= a < b < v1.len() implies #[trigger] v1[a].0 != #[trigger] v1[b].0 by {
                        let a2 = if a < m { a } else { a + 1 };
                        let b2 = if b < m { b } else { b + 1 };
                        assert(v1[a] == v0[a2]);
                        assert(v1[b] == v0[b2]);
                    }
                }
                f
            },
            None => FileOwnership::new(path.clone()),
        }
    }
}

/// Whether `p` can stand as a path in the text form.
pub fn path_ok(p: &String) -> (r: bool)
    ensures
        r == path_wf(p@),
{
    let cs = to_chars(p.as_str());
    if cs.len() == 0 {
        return false;
    }
    let mut i: usize = 0;
    while i < cs.len()
        invariant
            i <= cs@.len(),
            cs@ == p@,
            forall|k: int| 0 <= k < i ==> cs@[k] != ':' && cs@[k] != '\n',
        decreases cs@.len() - i,
    {
        if cs[i] == ':' || cs[i] == '\n' {
            proof {
                if cs[i as int] == ':' {
                    assert(has_char(p@, ':'));
                } else {
                    assert(has_char(p@, '\n'));
                }
            }
            return false;
        }
        i = i + 1;
    }
    true
}

/// Whether the hunks are each well-formed, sorted, and pairwise disjoint.
pub fn hunks_ok(hs: &Vec<Hunk>) -> (r: bool)
    ensures
        r == hunks_wf(hs@),
{
    let mut i: usize = 0;
    while i < hs.len()
        invariant
            i <= hs@.len(),
            hunks_wf(hs@.subrange(0, i as int)),
        decreases hs@.len() - i,
    {
        let ghost pre = hs@.subrange(0, i as int);
        if hs[i].start > hs[i].end {
            proof {
                assert(!hs@[i as int].wf());
            }
            return false;
        }
        if i > 0 && hs[i - 1].end >= hs[i].start {
            proof {
                assert(!(hs@[i - 1].end < hs@[i as int].start));
            }
            return false;
        }
        proof {
            let next = hs@.subrange(0, i + 1);
            assert forall|a: int| 0 <= a < next.len() implies (#[trigger] next[a]).wf() by {
                if a < i {
                    assert(next[a] == pre[a]);
                }
            }
            assert forall|a: int, b: int| 0 <= a < b < next.len() implies #[trigger] next[a].end < #[trigger] next[b].start by {
                if b < i {
                    assert(next[a] == pre[a] && next[b] == pre[b]);
                } else if a < i - 1 {
                    assert(pre[a].end < pre[i - 1].start);
                    assert(pre[i - 1].wf());
                }
            }
        }
        i = i + 1;
    }
    proof {
        assert(hs@.subrange(0, hs@.len() as int) =~= hs@);
    }
    true
}

impl Ownership {
    /// Whether every path can be written, every file's hunks are sorted and
    /// disjoint, and no path comes twice.
    pub fn is_well_formed(&self) -> (r: bool)
        ensures
            r == self.wf(),
    {
        let ghost v = self@;
        let mut k: usize = 0;
        while k < self.files.len()
            invariant
                k <= self.files@.len(),
                v == self@,
                v.len() == self.files@.len(),
                files_wf(v.subrange(0, k as int)),
            decreases self.files@.len() - k,
        {
            let ghost pre = v.subrange(0, k as int);
            proof {
                assert(v[k as int] == self.files@[k as int]@);
            }
            if !path_ok(&self.files[k].file_path) || !hunks_ok(&self.files[k].hunks) {
                return false;
            }
            let mut m: usize = 0;
            while m < k
                invariant
                    m <= k < self.files@.len(),
                    v == self@,
                    forall|a: int| 0 <= a < m ==> (#[trigger] v[a]).0 != v[k as int].0,
                decreases k - m,
            {
                if self.files[m].file_path == self.files[k].file_path {
                    proof {
                        assert(v[m as int].0 == v[k as int].0);
                    }
                    return false;
                }
                m = m + 1;
            }
            proof {
                let next = v.subrange(0, k + 1);
                assert forall|a: int| 0 <= a < next.len() implies
                    path_wf((#[trigger] next[a]).0) && hunks_wf(next[a].1) by {
                    if a < k {
                        assert(next[a] == pre[a]);
                    }
                }
                assert forall|a: int, b: int| 0 <= a < b < next.len() implies #[trigger] next[a].0 != #[trigger] next[b].0 by {
                    if b < k {
                        assert(next[a] == pre[a] && next[b] == pre[b]);
                    }
                }
            }
            k = k + 1;
        }
        proof {
            assert(v.subrange(0, v.len() as int) =~= v);
        }
        true
    }
}

/// Writing an ownership as text and reading it back gives the same ownership.
pub proof fn lemma_ownership_text_round_trip(o: &Ownership)
    requires
        o.wf(),
    ensures
        parse_ownership_spec(ownership_text(o@)) == Some(o@),
{
    lemma_ownership_round_trip(o@);
}

} // verus!
