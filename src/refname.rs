//! Reference names: remote-tracking references (`refs/remotes/<remote>/<branch>`)
//! and the synthetic references of virtual branches (`refs/gitbutler/<name>`).
use vstd::prelude::*;
use crate::text::{has_char, to_chars, from_chars, push_range};

verus! {

pub open spec fn remote_prefix() -> Seq<char> {
    seq!['r', 'e', 'f', 's', '/', 'r', 'e', 'm', 'o', 't', 'e', 's', '/']
}

/// A remote name without `/` and a non-empty branch name.
pub open spec fn remote_parts_wf(p: (Seq<char>, Seq<char>)) -> bool {
    p.0.len() > 0 && !has_char(p.0, '/') && p.1.len() > 0
}

/// `refs/remotes/<remote>/<branch>`.
pub open spec fn remote_text(p: (Seq<char>, Seq<char>)) -> Seq<char> {
    remote_prefix() + p.0.push('/') + p.1
}

/// The remote and branch that a text names, if it is a remote reference.
pub open spec fn parse_remote_spec(s: Seq<char>) -> Option<(Seq<char>, Seq<char>)> {
    if exists|p: (Seq<char>, Seq<char>)| remote_parts_wf(p) && remote_text(p) == s {
        Some(choose|p: (Seq<char>, Seq<char>)| remote_parts_wf(p) && remote_text(p) == s)
    } else {
        None
    }
}

/// Two remote references with the same text have the same parts.
pub proof fn lemma_remote_text_unique(p: (Seq<char>, Seq<char>), q: (Seq<char>, Seq<char>))
    requires
        remote_parts_wf(p),
        remote_parts_wf(q),
        remote_text(p) == remote_text(q),
    ensures
        p == q,
{
    let s = remote_text(p);
    let n: int = 13;
    let a: int = p.0.len() as int;
    let b: int = q.0.len() as int;
    assert(s[n + a] == '/');
    assert(remote_text(q)[n + b] == '/');
    if a < b {
        assert(q.0[a] == s[n + a]);
        assert(has_char(q.0, '/'));
    } else if b < a {
        assert(p.0[b] == s[n + b]);
        assert(has_char(p.0, '/'));
    }
    assert(p.0 =~= s.subrange(n, n + a));
    assert(q.0 =~= s.subrange(n, n + b));
    assert(p.1 =~= s.subrange(n + a + 1, s.len() as int));
    assert(q.1 =~= s.subrange(n + b + 1, s.len() as int));
}

/// A remote reference's text reads back as it.
pub proof fn lemma_remote_round_trip(p: (Seq<char>, Seq<char>))
    requires
        remote_parts_wf(p),
    ensures
        parse_remote_spec(remote_text(p)) == Some(p),
{
    let q = parse_remote_spec(remote_text(p)).unwrap();
    lemma_remote_text_unique(p, q);
}

#[derive(Debug)]
pub struct RemoteRefname {
    pub remote: String,
    pub branch: String,
}

impl View for RemoteRefname {
    type V = (Seq<char>, Seq<char>);

    open spec fn view(&self) -> (Seq<char>, Seq<char>) {
        (self.remote@, self.branch@)
    }
}

fn prefix_chars() -> (r: Vec<char>)
    ensures
        r@ == remote_prefix(),
{
    let r = vec!['r', 'e', 'f', 's', '/', 'r', 'e', 'm', 'o', 't', 'e', 's', '/'];
    proof {
        assert(r@ =~= remote_prefix());
    }
    r
}

impl RemoteRefname {
    pub open spec fn wf(&self) -> bool {
        remote_parts_wf(self@)
    }

    /// The full reference name, `refs/remotes/<remote>/<branch>`.
    pub fn to_text(&self) -> (r: String)
        ensures
            r@ == remote_text(self@),
    {
        let mut out = prefix_chars();
        let rc = to_chars(self.remote.as_str());
        let bc = to_chars(self.branch.as_str());
        push_range(&rc, 0, rc.len(), &mut out);
        out.push('/');
        push_range(&bc, 0, bc.len(), &mut out);
        proof {
            assert(rc@.subrange(0, rc@.len() as int) =~= rc@);
            assert(bc@.subrange(0, bc@.len() as int) =~= bc@);
            assert(out@ =~= remote_text(self@));
        }
        from_chars(&out)
    }

    /// Reads `refs/remotes/<remote>/<branch>`; the remote ends at the first `/`.
    pub fn parse(s: &str) -> (r: Option<RemoteRefname>)
        ensures
            r.is_some() == parse_remote_spec(s@).is_some(),
            r matches Some(x) ==> x.wf() && x@ == parse_remote_spec(s@).unwrap(),
    {
        let cs = to_chars(s);
        let pre = prefix_chars();
        let n = cs.len();
        if n < 13 {
            proof {
                if parse_remote_spec(s@).is_some() {
                    let p = parse_remote_spec(s@).unwrap();
                    assert(remote_parts_wf(p) && remote_text(p) == s@);
                    assert(remote_text(p).len() >= 13);
                }
            }
            return None;
        }
        let mut i: usize = 0;
        while i < 13
            invariant
                i <= 13,
                13 <= n == cs@.len(),
                cs@ == s@,
                pre@ == remote_prefix(),
                forall|k: int| 0 <= k < i ==> cs@[k] == pre@[k],
            decreases 13 - i,
        {
            if cs[i] != pre[i] {
                proof {
                    if parse_remote_spec(s@).is_some() {
                        let p = parse_remote_spec(s@).unwrap();
                    assert(remote_parts_wf(p) && remote_text(p) == s@);
                        assert(remote_text(p)[i as int] == remote_prefix()[i as int]);
                    }
                }
                return None;
            }
            i = i + 1;
        }
        let mut j: usize = 13;
        while j < n && cs[j] != '/'
            invariant
                13 <= j <= n,
                n == cs@.len(),
                forall|k: int| 13 <= k < j ==> cs@[k] != '/',
            decreases n - j,
        {
            j = j + 1;
        }
        if j == 13 || j >= n - 1 {
            proof {
                if parse_remote_spec(s@).is_some() {
                    let p = parse_remote_spec(s@).unwrap();
                    assert(remote_parts_wf(p) && remote_text(p) == s@);
                    let t = remote_text(p);
                    let a: int = p.0.len() as int;
                    assert(t[13 + a] == '/');
                    if 13 + a < j {
                        assert(cs@[13 + a] == '/');
                    }
                    assert(t == cs@);
                    assert(t.len() == 13 + a + 1 + p.1.len());
                    if j < 13 + a {
                        assert(p.0[j - 13] == t[j as int]);
                        assert(has_char(p.0, '/'));
                    }
                    assert(j == 13 + a);
                }
            }
            return None;
        }
        let mut rv: Vec<char> = Vec::new();
        push_range(&cs, 13, j, &mut rv);
        let mut bv: Vec<char> = Vec::new();
        push_range(&cs, j + 1, n, &mut bv);
        let x = RemoteRefname { remote: from_chars(&rv), branch: from_chars(&bv) };
        proof {
            assert(!has_char(x@.0, '/')) by {
                if has_char(x@.0, '/') {
                    let k = choose|k: int| 0 <= k < x@.0.len() && x@.0[k] == '/';
                    assert(cs@[13 + k] == '/');
                }
            }
            assert(cs@.subrange(0, 13) =~= remote_prefix());
            assert(remote_text(x@) =~= s@);
            lemma_remote_round_trip(x@);
        }
        Some(x)
    }
}

/// Characters kept as they are in a virtual reference name.
pub open spec fn name_char_ok(c: char) -> bool {
    ('A' <= c <= 'Z') || ('a' <= c <= 'z') || ('0' <= c <= '9') || c == '_' || c == '/' || c == '.'
}

/// A branch name made fit for a reference: each run of other characters
/// becomes one `-`.
pub open spec fn normalize(s: Seq<char>) -> Seq<char>
    decreases s.len(),
{
    if s.len() == 0 {
        Seq::empty()
    } else if name_char_ok(s.last()) {
        normalize(s.drop_last()).push(s.last())
    } else if s.len() >= 2 && !name_char_ok(s[s.len() - 2]) {
        normalize(s.drop_last())
    } else {
        normalize(s.drop_last()).push('-')
    }
}

/// The synthetic reference of a virtual branch, `refs/gitbutler/<branch>`.
#[derive(Debug)]
pub struct VirtualRefname {
    pub branch: String,
}

pub open spec fn virtual_prefix() -> Seq<char> {
    seq!['r', 'e', 'f', 's', '/', 'g', 'i', 't', 'b', 'u', 't', 'l', 'e', 'r', '/']
}

/// The reference name of a virtual branch called `name`.
pub fn normalize_branch_name(name: &str) -> (r: String)
    ensures
        r@ == normalize(name@),
{
    let cs = to_chars(name);
    let mut out: Vec<char> = Vec::new();
    let mut i: usize = 0;
    while i < cs.len()
        invariant
            i <= cs@.len(),
            out@ == normalize(cs@.subrange(0, i as int)),
        decreases cs@.len() - i,
    {
        let c = cs[i];
        let ok = ('A' <= c && c <= 'Z') || ('a' <= c && c <= 'z') || ('0' <= c && c <= '9') || c == '_' || c == '/' || c == '.';
        proof {
            let t = cs@.subrange(0, i + 1);
            assert(t.drop_last() =~= cs@.subrange(0, i as int));
            assert(t.last() == c);
            if i >= 1 {
                assert(t[t.len() - 2] == cs@[i - 1]);
            }
        }
        if ok {
            out.push(c);
        } else if i >= 1 && !(('A' <= cs[i - 1] && cs[i - 1] <= 'Z') || ('a' <= cs[i - 1] && cs[i - 1] <= 'z') || ('0' <= cs[i - 1] && cs[i - 1] <= '9') || cs[i - 1] == '_' || cs[i - 1] == '/' || cs[i - 1] == '.') {
        } else {
            out.push('-');
        }
        i = i + 1;
    }
    proof {
        assert(cs@.subrange(0, cs@.len() as int) =~= cs@);
    }
    from_chars(&out)
}

impl VirtualRefname {
    /// The full reference name, `refs/gitbutler/<branch>`.
    pub fn to_text(&self) -> (r: String)
        ensures
            r@ == virtual_prefix() + self.branch@,
    {
        let mut out = vec!['r', 'e', 'f', 's', '/', 'g', 'i', 't', 'b', 'u', 't', 'l', 'e', 'r', '/'];
        let bc = to_chars(self.branch.as_str());
        push_range(&bc, 0, bc.len(), &mut out);
        proof {
            assert(bc@.subrange(0, bc@.len() as int) =~= bc@);
            assert(out@ =~= virtual_prefix() + self.branch@);
        }
        from_chars(&out)
    }
}

} // verus!
