use vstd::prelude::*;
use vstd::string::*;

use crate::errors::FrameError;

verus! {

/// View of the fixed marker that opens every header line.
pub open spec fn start_marker() -> Seq<char> {
    "[gd_ron]"@
}

/// View of the fixed marker that closes every header line.
pub open spec fn end_marker() -> Seq<char> {
    "[/gd_ron]"@
}

/// The fixed process-wide marker that opens every header line.
pub fn gd_ron_start() -> (r: &'static str)
    ensures
        r@ == start_marker(),
{
    "[gd_ron]"
}

/// The fixed process-wide marker that closes every header line.
pub fn gd_ron_end() -> (r: &'static str)
    ensures
        r@ == end_marker(),
{
    "[/gd_ron]"
}

/// Does `s` contain `sub` as a contiguous substring?
pub open spec fn contains_seq(s: Seq<char>, sub: Seq<char>) -> bool {
    exists|i: int| 0 <= i && i + sub.len() <= s.len() && #[trigger] s.subrange(i, i + sub.len()) == sub
}

/// A type identifier is well formed when it holds no newline and neither
/// delimiter marker, so that it cannot corrupt the header boundary.
pub open spec fn wf_identifier(id: Seq<char>) -> bool {
    &&& !id.contains('\n')
    &&& !contains_seq(id, start_marker())
    &&& !contains_seq(id, end_marker())
}

/// The header line built for a given header content: the content wrapped
/// between the two fixed markers.
pub open spec fn spec_build(content: Seq<char>) -> Seq<char> {
    start_marker() + content + end_marker()
}

/// The name and uid carried by the composite header form `gd=[name]=uid=[uid]`.
pub struct GdRonResourceHeader {
    pub name: String,
    pub uid: String,
}

impl GdRonResourceHeader {
    pub fn new(name: String, uid: String) -> (r: Self)
        ensures
            r.name@ == name@,
            r.uid@ == uid@,
    {
        Self { name, uid }
    }
}

/// Renders the composite header content `gd=[name]=uid=[uid]`.
pub fn create_gd_ron_resource_header(name: &str, uid: &str) -> (r: String)
    ensures
        r@ == "gd=["@ + name@ + "]=uid=["@ + uid@ + "]"@,
{
    let mut s = String::from_str("gd=[");
    s.append(name);
    s.append("]=uid=[");
    s.append(uid);
    s.append("]");
    s
}

/// Builds the header line for a type identifier: the identifier wrapped
/// between the two fixed markers. The caller guarantees the identifier is
/// well formed; that is a precondition, not a runtime check.
pub fn build_header(type_identifier: &str) -> (r: String)
    requires
        wf_identifier(type_identifier@),
    ensures
        r@ == spec_build(type_identifier@),
{
    let mut s = String::from_str(gd_ron_start());
    s.append(type_identifier);
    s.append(gd_ron_end());
    s
}

/// `i` is the header/body boundary of `s`: the index of the first newline.
pub open spec fn is_boundary(s: Seq<char>, i: int) -> bool {
    &&& 0 <= i < s.len()
    &&& s[i] == '\n'
    &&& forall|j: int| 0 <= j < i ==> s[j] != '\n'
}

/// The header/body boundary of `s`; meaningful only when `s` holds a newline.
pub open spec fn boundary_of(s: Seq<char>) -> int {
    choose|i: int| is_boundary(s, i)
}

/// A text with a newline has a boundary: a first newline exists.
pub proof fn lemma_boundary_exists(s: Seq<char>)
    requires
        s.contains('\n'),
    ensures
        is_boundary(s, boundary_of(s)),
    decreases s.len(),
{
    if s[0] == '\n' {
        assert(is_boundary(s, 0));
    } else {
        let t = s.subrange(1, s.len() as int);
        let k = choose|k: int| 0 <= k < s.len() && s[k] == '\n';
        assert(t[k - 1] == '\n');
        assert(t.contains('\n'));
        lemma_boundary_exists(t);
        let j = boundary_of(t);
        assert(s[j + 1] == t[j]);
        assert forall|m: int| 0 <= m < j + 1 implies s[m] != '\n' by {
            if m > 0 {
                assert(s[m] == t[m - 1]);
            }
        }
        assert(is_boundary(s, j + 1));
    }
    let b = boundary_of(s);
    assert(is_boundary(s, b));
}

/// The boundary is unique: there is only one first newline.
pub proof fn lemma_boundary_unique(s: Seq<char>, i: int, j: int)
    requires
        is_boundary(s, i),
        is_boundary(s, j),
    ensures
        i == j,
{
}

/// Returns the index of the first newline in `raw_text`, the boundary between
/// header and body; fails with `MalformedBlob` when no newline exists.
pub fn locate_boundary(raw_text: &str) -> (r: Result<usize, FrameError>)
    ensures
        match r {
            Ok(i) => is_boundary(raw_text@, i as int),
            Err(e) => e is MalformedBlob && !raw_text@.contains('\n'),
        },
{
    let n = raw_text.unicode_len();
    let mut i: usize = 0;
    while i < n
        invariant
            n == raw_text@.len(),
            0 <= i <= n,
            forall|j: int| 0 <= j < i ==> raw_text@[j] != '\n',
        decreases n - i,
    {
        if raw_text.get_char(i) == '\n' {
            return Ok(i);
        }
        i = i + 1;
    }
    Err(FrameError::MalformedBlob)
}

/// Are two string slices equal, character for character?
pub fn str_eq(a: &str, b: &str) -> (r: bool)
    ensures
        r == (a@ == b@),
{
    let n = a.unicode_len();
    if n != b.unicode_len() {
        return false;
    }
    let mut i: usize = 0;
    while i < n
        invariant
            n == a@.len(),
            n == b@.len(),
            0 <= i <= n,
            forall|j: int| 0 <= j < i ==> a@[j] == b@[j],
        decreases n - i,
    {
        if a.get_char(i) != b.get_char(i) {
            return false;
        }
        i = i + 1;
    }
    proof {
        assert(a@ =~= b@);
    }
    true
}

/// Does `s` hold `sub` as a contiguous substring?
pub fn contains_substring(s: &str, sub: &str) -> (r: bool)
    ensures
        r == contains_seq(s@, sub@),
{
    let n = s.unicode_len();
    let m = sub.unicode_len();
    if m == 0 {
        proof {
            assert(s@.subrange(0, 0 + sub@.len() as int) =~= sub@);
        }
        return true;
    }
    if m > n {
        return false;
    }
    let mut i: usize = 0;
    while i <= n - m
        invariant
            n == s@.len(),
            m == sub@.len(),
            0 < m <= n,
            0 <= i <= n - m + 1,
            forall|p: int| 0 <= p < i ==> #[trigger] s@.subrange(p, p + m) != sub@,
        decreases n - i,
    {
        let mut k: usize = 0;
        let mut hit = true;
        while k < m
            invariant
                n == s@.len(),
                m == sub@.len(),
                0 < m <= n,
                0 <= i <= n - m,
                0 <= k <= m,
                hit ==> forall|q: int| 0 <= q < k ==> s@[i + q] == sub@[q],
                !hit ==> s@.subrange(i as int, i + m) != sub@,
            decreases m - k,
        {
            if s.get_char(i + k) != sub.get_char(k) {
                proof {
                    assert(s@.subrange(i as int, i + m)[k as int] == s@[i + k]);
                }
                hit = false;
                k = m;
            } else {
                k = k + 1;
            }
        }
        if hit {
            proof {
                assert(s@.subrange(i as int, i + m) =~= sub@);
            }
            return true;
        }
        i = i + 1;
    }
    proof {
        assert forall|p: int| 0 <= p && p + sub@.len() <= s@.len() implies #[trigger] s@.subrange(
            p,
            p + sub@.len(),
        ) != sub@ by {
            assert(p < i);
        }
    }
    false
}

/// Does the string meet the type-identifier invariant: no newline and
/// neither delimiter marker inside it?
pub fn is_wf_identifier(s: &str) -> (r: bool)
    ensures
        r == wf_identifier(s@),
{
    if contains_substring(s, "\n") {
        proof {
            reveal_strlit("\n");
            let w = choose|i: int|
                0 <= i && i + "\n"@.len() <= s@.len() && #[trigger] s@.subrange(
                    i,
                    i + "\n"@.len(),
                ) == "\n"@;
            assert(s@.subrange(w, w + 1)[0] == s@[w]);
            assert(s@[w] == '\n');
        }
        return false;
    }
    proof {
        reveal_strlit("\n");
        if s@.contains('\n') {
            let w = choose|i: int| 0 <= i < s@.len() && s@[i] == '\n';
            assert(s@.subrange(w, w + 1) =~= "\n"@);
        }
    }
    !contains_substring(s, gd_ron_start()) && !contains_substring(s, gd_ron_end())
}

/// Strips the two markers from a header line and returns the interior
/// content, or `None` when the line is not a marker-wrapped header.
pub fn parse_header(header_slice: &str) -> (r: Option<String>)
    ensures
        match r {
            Some(content) => header_slice@ == spec_build(content@),
            None => forall|c: Seq<char>| header_slice@ != spec_build(c),
        },
{
    let sm = gd_ron_start();
    let em = gd_ron_end();
    let n = header_slice.unicode_len();
    let sm_n = sm.unicode_len();
    let em_n = em.unicode_len();
    if n < sm_n || n - sm_n < em_n {
        proof {
            assert forall|c: Seq<char>| header_slice@ != spec_build(c) by {
                assert(spec_build(c).len() >= start_marker().len() + end_marker().len());
            }
        }
        return None;
    }
    let mut i: usize = 0;
    while i < sm_n
        invariant
            sm_n == start_marker().len(),
            em_n == end_marker().len(),
            n == header_slice@.len(),
            sm@ == start_marker(),
            sm_n <= n,
            em_n <= n - sm_n,
            0 <= i <= sm_n,
            forall|j: int| 0 <= j < i ==> header_slice@[j] == start_marker()[j],
        decreases sm_n - i,
    {
        if header_slice.get_char(i) != sm.get_char(i) {
            proof {
                assert forall|c: Seq<char>| header_slice@ != spec_build(c) by {
                    if header_slice@ == spec_build(c) {
                        assert(header_slice@[i as int] == start_marker()[i as int]);
                    }
                }
            }
            return None;
        }
        i = i + 1;
    }
    let base = n - em_n;
    let mut k: usize = 0;
    while k < em_n
        invariant
            sm_n == start_marker().len(),
            em_n == end_marker().len(),
            n == header_slice@.len(),
            em@ == end_marker(),
            sm_n <= n,
            em_n <= n - sm_n,
            base == n - em_n,
            0 <= k <= em_n,
            forall|j: int| 0 <= j < k ==> header_slice@[base + j] == end_marker()[j],
        decreases em_n - k,
    {
        if header_slice.get_char(base + k) != em.get_char(k) {
            proof {
                assert forall|c: Seq<char>| header_slice@ != spec_build(c) by {
                    if header_slice@ == spec_build(c) {
                        assert(c.len() == n - sm_n - em_n);
                        assert(header_slice@[base + k] == end_marker()[k as int]);
                    }
                }
            }
            return None;
        }
        k = k + 1;
    }
    let interior = header_slice.substring_char(sm_n, base);
    let content = String::from_str(interior);
    proof {
        assert(header_slice@ =~= spec_build(content@));
    }
    Some(content)
}

/// Wrapping two distinct contents gives two distinct header lines.
pub proof fn lemma_build_injective(a: Seq<char>, b: Seq<char>)
    requires
        spec_build(a) == spec_build(b),
    ensures
        a == b,
{
    assert(spec_build(a).len() == start_marker().len() + a.len() + end_marker().len());
    assert(spec_build(b).len() == start_marker().len() + b.len() + end_marker().len());
    assert(a.len() == b.len());
    assert forall|j: int| 0 <= j < a.len() implies a[j] == b[j] by {
        assert(spec_build(a)[start_marker().len() + j] == a[j]);
        assert(spec_build(b)[start_marker().len() + j] == b[j]);
    }
    assert(a =~= b);
}

} // verus!
