//! Port identifiers and per-port metadata.
//!
//! A [`PortFullname`] is a validated `client:port` string: it always holds a
//! `:` within the client-name limit, and the whole string stays within the
//! port-name limit. Construction through [`PortFullname::new`] is the single
//! validation gate for every name entering the system.

use vstd::prelude::*;

use crate::model::NameError;

verus! {

/// The longest accepted full port name, in characters.
pub const PORT_NAME_MAX: usize = 320;

/// Client-name segments must be strictly shorter than this, in characters.
pub const CLIENT_NAME_MAX: usize = 63;

/// The index of the first `:` in `s`, or `s.len()` when there is none.
pub open spec fn first_colon(s: Seq<char>) -> int
    decreases s.len(),
{
    if s.len() == 0 {
        0
    } else if s[0] == ':' {
        0
    } else {
        1 + first_colon(s.skip(1))
    }
}

/// True when `s` holds at least one `:`.
pub open spec fn has_colon(s: Seq<char>) -> bool {
    exists|i: int| 0 <= i < s.len() && s[i] == ':'
}

/// The client segment of a full name: everything before the first `:`.
pub open spec fn client_of(s: Seq<char>) -> Seq<char> {
    s.subrange(0, first_colon(s))
}

/// The error [`PortFullname::new`] reports for an invalid name.
pub open spec fn spec_name_error(s: Seq<char>) -> crate::model::NameError {
    if s.len() > PORT_NAME_MAX {
        crate::model::NameError::PortnameTooLong
    } else if !has_colon(s) {
        crate::model::NameError::InvalidFullname
    } else {
        crate::model::NameError::ClientnameTooLong
    }
}

/// The names accepted by [`PortFullname::new`]: within the total length
/// limit, with a `:` whose first occurrence lies within the client limit.
pub open spec fn valid_port_name(s: Seq<char>) -> bool {
    &&& s.len() <= PORT_NAME_MAX
    &&& has_colon(s)
    &&& first_colon(s) < CLIENT_NAME_MAX
}

pub proof fn lemma_first_colon(s: Seq<char>)
    ensures
        0 <= first_colon(s) <= s.len(),
        has_colon(s) <==> first_colon(s) < s.len(),
        first_colon(s) < s.len() ==> s[first_colon(s)] == ':',
        forall|j: int| 0 <= j < first_colon(s) ==> s[j] != ':',
    decreases s.len(),
{
    if s.len() == 0 {
    } else if s[0] == ':' {
        assert(has_colon(s));
    } else {
        lemma_first_colon(s.skip(1));
        let f = first_colon(s.skip(1));
        assert(forall|j: int| 0 <= j < f ==> s.skip(1)[j] != ':');
        assert(forall|j: int| 1 <= j < f + 1 ==> s[j] == s.skip(1)[j - 1]);
        if has_colon(s) {
            let i = choose|i: int| 0 <= i < s.len() && s[i] == ':';
            assert(s.skip(1)[i - 1] == ':');
            assert(has_colon(s.skip(1)));
        }
        if has_colon(s.skip(1)) {
            let i = choose|i: int| 0 <= i < s.skip(1).len() && s.skip(1)[i] == ':';
            assert(s[i + 1] == ':');
            assert(has_colon(s));
        }
    }
}

/// In a well-formed name the stored split point is exactly the first `:`,
/// so two well-formed names over the same characters are identical.
pub proof fn lemma_wf_split_is_first_colon(p: PortFullname)
    requires
        p.wf(),
    ensures
        p.split_pos() == first_colon(p@),
{
    lemma_first_colon(p@);
    if first_colon(p@) < p.split_pos() {
        assert(p@[first_colon(p@)] != ':');
    }
    if first_colon(p@) > p.split_pos() {
        assert(p@[p.split_pos()] != ':');
    }
}

/// Splitting a well-formed name and rejoining its two segments around a
/// `:` reproduces the original string.
pub proof fn lemma_name_splits_rejoin(p: PortFullname)
    requires
        p.wf(),
    ensures
        p.spec_client() + seq![':'] + p.spec_short() == p@,
{
    assert(p.spec_client() + seq![':'] + p.spec_short() =~= p@);
}

/// An immutable, validated port name of the form `client:port`, split at the
/// first `:`.
#[derive(Debug, Hash)]
pub struct PortFullname {
    buffer: String,
    split_idx: usize,
}

impl View for PortFullname {
    type V = Seq<char>;

    closed spec fn view(&self) -> Seq<char> {
        self.buffer@
    }
}

impl PortFullname {
    /// Every value of the type is well formed: the only constructor is
    /// [`PortFullname::new`], which validates.
    #[verifier::type_invariant]
    pub open spec fn type_wf(self) -> bool {
        self.wf()
    }

    /// The character index of the split point, i.e. the first `:`.
    pub closed spec fn split_pos(self) -> int {
        self.split_idx as int
    }

    /// The structural invariant: the split point is the first `:`, within the
    /// client limit, and the whole name is within the total limit.
    pub open spec fn wf(self) -> bool {
        &&& 0 <= self.split_pos() < self@.len()
        &&& self@[self.split_pos()] == ':'
        &&& forall|j: int| 0 <= j < self.split_pos() ==> self@[j] != ':'
        &&& self.split_pos() < CLIENT_NAME_MAX
        &&& self@.len() <= PORT_NAME_MAX
    }

    /// The client segment: everything before the first `:`.
    pub open spec fn spec_client(self) -> Seq<char> {
        self@.subrange(0, self.split_pos())
    }

    /// The port segment: everything after the first `:`.
    pub open spec fn spec_short(self) -> Seq<char> {
        self@.subrange(self.split_pos() + 1, self@.len() as int)
    }

    /// Validates `buffer` as a `client:port` name. This is the only
    /// constructor, so every `PortFullname` in the system is well formed.
    pub fn new(buffer: String) -> (r: Result<PortFullname, NameError>)
        ensures
            r is Ok <==> valid_port_name(buffer@),
            r matches Ok(p) ==> p.wf() && p@ == buffer@ && p.split_pos() == first_colon(buffer@),
            r == Err::<PortFullname, NameError>(NameError::PortnameTooLong) <==> buffer@.len()
                > PORT_NAME_MAX,
            r == Err::<PortFullname, NameError>(NameError::InvalidFullname) <==> (buffer@.len()
                <= PORT_NAME_MAX && !has_colon(buffer@)),
            r == Err::<PortFullname, NameError>(NameError::ClientnameTooLong) <==> (buffer@.len()
                <= PORT_NAME_MAX && has_colon(buffer@) && first_colon(buffer@) >= CLIENT_NAME_MAX),
    {
        proof {
            lemma_first_colon(buffer@);
        }
        let len = buffer.as_str().unicode_len();
        if len > PORT_NAME_MAX {
            return Err(NameError::PortnameTooLong);
        }
        let mut i: usize = 0;
        while i < len
            invariant
                i <= len,
                len == buffer@.len(),
                len <= PORT_NAME_MAX,
                forall|j: int| 0 <= j < i ==> buffer@[j] != ':',
            decreases len - i,
        {
            if buffer.as_str().get_char(i) == ':' {
                proof {
                    lemma_first_colon(buffer@);
                    assert(has_colon(buffer@));
                    assert(first_colon(buffer@) <= i) by {
                        if first_colon(buffer@) > i {
                            assert(buffer@[i as int] != ':');
                        }
                    }
                    assert(first_colon(buffer@) == i) by {
                        if first_colon(buffer@) < i {
                            assert(buffer@[first_colon(buffer@)] == ':');
                        }
                    }
                }
                if i >= CLIENT_NAME_MAX {
                    return Err(NameError::ClientnameTooLong);
                }
                return Ok(PortFullname { buffer, split_idx: i });
            }
            i += 1;
        }
        proof {
            assert(!has_colon(buffer@)) by {
                if has_colon(buffer@) {
                    let k = choose|k: int| 0 <= k < buffer@.len() && buffer@[k] == ':';
                    assert(buffer@[k] != ':');
                }
            }
        }
        Err(NameError::InvalidFullname)
    }

    /// The client segment as a slice of the underlying buffer.
    pub fn client_name(&self) -> (r: &str)
        requires
            self.wf(),
        ensures
            r@ == self.spec_client(),
    {
        self.buffer.as_str().substring_char(0, self.split_idx)
    }

    /// The port segment as a slice of the underlying buffer.
    pub fn port_shortname(&self) -> (r: &str)
        requires
            self.wf(),
        ensures
            r@ == self.spec_short(),
    {
        let len = self.buffer.as_str().unicode_len();
        self.buffer.as_str().substring_char(self.split_idx + 1, len)
    }

    /// The whole `client:port` name.
    pub fn as_str(&self) -> (r: &str)
        ensures
            r@ == self@,
    {
        self.buffer.as_str()
    }

    /// Lexicographic comparison of the underlying names, used to canonicalize
    /// unordered port pairs as `(min, max)`.
    pub fn lt(&self, other: &PortFullname) -> (r: bool)
        ensures
            r == lex_lt(self@, other@),
    {
        str_lex_lt(self.buffer.as_str(), other.buffer.as_str())
    }
}

impl Clone for PortFullname {
    fn clone(&self) -> (r: Self)
        ensures
            r == self,
    {
        proof {
            use_type_invariant(self);
        }
        PortFullname { buffer: self.buffer.clone(), split_idx: self.split_idx }
    }
}

impl PartialEq for PortFullname {
    fn eq(&self, other: &Self) -> (r: bool) {
        self.buffer == other.buffer && self.split_idx == other.split_idx
    }
}

impl Eq for PortFullname {

}

impl vstd::std_specs::cmp::PartialEqSpecImpl for PortFullname {
    open spec fn obeys_eq_spec() -> bool {
        true
    }

    open spec fn eq_spec(&self, other: &Self) -> bool {
        self@ == other@ && self.split_pos() == other.split_pos()
    }
}

/// Compares two strings character by character.
pub fn str_eq(a: &str, b: &str) -> (r: bool)
    ensures
        r == (a@ == b@),
{
    let a_len = a.unicode_len();
    let b_len = b.unicode_len();
    if a_len != b_len {
        proof {
            assert(a@ != b@);
        }
        return false;
    }
    let mut i: usize = 0;
    while i < a_len
        invariant
            i <= a_len,
            a_len == a@.len(),
            a_len == b@.len(),
            forall|j: int| 0 <= j < i ==> a@[j] == b@[j],
        decreases a_len - i,
    {
        if a.get_char(i) != b.get_char(i) {
            proof {
                assert(a@ != b@);
            }
            return false;
        }
        i += 1;
    }
    proof {
        assert(a@ =~= b@);
    }
    true
}

/// Strict lexicographic order on character sequences, by code point.
pub open spec fn lex_lt(a: Seq<char>, b: Seq<char>) -> bool
    decreases a.len(),
{
    if b.len() == 0 {
        false
    } else if a.len() == 0 {
        true
    } else if a[0] != b[0] {
        (a[0] as u32) < (b[0] as u32)
    } else {
        lex_lt(a.skip(1), b.skip(1))
    }
}

/// Lexicographic order is a strict total order: exactly one of `a < b`,
/// `a == b`, `b < a` holds, and it composes transitively.
pub proof fn lemma_lex_lt_properties(a: Seq<char>, b: Seq<char>)
    ensures
        !(lex_lt(a, b) && lex_lt(b, a)),
        !lex_lt(a, b) && !lex_lt(b, a) ==> a =~= b,
        lex_lt(a, b) ==> a != b,
    decreases a.len(),
{
    if a.len() != 0 && b.len() != 0 && a[0] == b[0] {
        lemma_lex_lt_properties(a.skip(1), b.skip(1));
        if !lex_lt(a, b) && !lex_lt(b, a) {
            assert(a.skip(1) =~= b.skip(1));
            assert(a.len() == b.len());
            assert forall|i: int| 0 <= i < a.len() implies a[i] == b[i] by {
                if i > 0 {
                    assert(a[i] == a.skip(1)[i - 1]);
                    assert(b[i] == b.skip(1)[i - 1]);
                }
            }
            assert(a =~= b);
        }
        if lex_lt(a, b) && a == b {
            assert(a.skip(1) == b.skip(1));
        }
    } else {
        if !lex_lt(a, b) && !lex_lt(b, a) {
            if b.len() == 0 {
                assert(a.len() == 0);
                assert(a =~= b);
            } else if a.len() == 0 {
                assert(lex_lt(a, b));
            } else {
                assert(lex_lt(a, b) == ((a[0] as u32) < (b[0] as u32)));
                assert(lex_lt(b, a) == ((b[0] as u32) < (a[0] as u32)));
                assert(a[0] as u32 == b[0] as u32);
                vstd::utf8::char_u32_cast(a[0], a[0] as u32);
                vstd::utf8::char_u32_cast(b[0], b[0] as u32);
                assert(a[0] == b[0]);
            }
        }
        if lex_lt(a, b) && a == b {
            assert(a.len() == b.len());
        }
    }
}

pub proof fn lemma_lex_lt_trans(a: Seq<char>, b: Seq<char>, c: Seq<char>)
    requires
        lex_lt(a, b),
        lex_lt(b, c),
    ensures
        lex_lt(a, c),
    decreases a.len() + b.len() + c.len(),
{
    if b.len() == 0 || c.len() == 0 {
    } else if a.len() == 0 {
    } else {
        if a[0] == b[0] && b[0] == c[0] {
            lemma_lex_lt_trans(a.skip(1), b.skip(1), c.skip(1));
        }
    }
}

/// Compares two strings lexicographically by code point.
pub fn str_lex_lt(a: &str, b: &str) -> (r: bool)
    ensures
        r == lex_lt(a@, b@),
{
    let a_len = a.unicode_len();
    let b_len = b.unicode_len();
    let mut i: usize = 0;
    proof {
        assert(a@.skip(0) =~= a@);
        assert(b@.skip(0) =~= b@);
    }
    loop
        invariant
            i <= a_len,
            i <= b_len,
            a_len == a@.len(),
            b_len == b@.len(),
            forall|j: int| 0 <= j < i ==> a@[j] == b@[j],
            lex_lt(a@, b@) == lex_lt(a@.skip(i as int), b@.skip(i as int)),
        decreases a_len - i,
    {
        let ghost sa = a@.skip(i as int);
        let ghost sb = b@.skip(i as int);
        if i >= a_len {
            proof {
                assert(sa.len() == 0);
                assert(lex_lt(sa, sb) == (sb.len() != 0));
            }
            return a_len < b_len;
        }
        if i >= b_len {
            proof {
                assert(sb.len() == 0);
                assert(!lex_lt(sa, sb));
            }
            return false;
        }
        let ca = a.get_char(i);
        let cb = b.get_char(i);
        proof {
            assert(sa[0] == a@[i as int]);
            assert(sb[0] == b@[i as int]);
        }
        if ca != cb {
            return (ca as u32) < (cb as u32);
        }
        i += 1;
        proof {
            lemma_lex_lt_skip(a@, b@, i as int);
        }
    }
}

/// Unfolds `lex_lt` on sequences that agree on their first `i` characters.
proof fn lemma_lex_lt_skip(a: Seq<char>, b: Seq<char>, i: int)
    requires
        0 <= i <= a.len(),
        i <= b.len(),
        forall|j: int| 0 <= j < i ==> a[j] == b[j],
    ensures
        lex_lt(a, b) == lex_lt(a.skip(i), b.skip(i)),
    decreases i,
{
    if i > 0 {
        assert(a[0] == b[0]);
        if b.len() == 0 {
        } else if a.len() == 0 {
        } else {
            assert(lex_lt(a, b) == lex_lt(a.skip(1), b.skip(1)));
            assert(forall|j: int| 0 <= j < i - 1 ==> a.skip(1)[j] == b.skip(1)[j]);
            lemma_lex_lt_skip(a.skip(1), b.skip(1), i - 1);
            assert(a.skip(1).skip(i - 1) =~= a.skip(i));
            assert(b.skip(1).skip(i - 1) =~= b.skip(i));
        }
    } else {
        assert(a.skip(0) =~= a);
        assert(b.skip(0) =~= b);
    }
}

/// Whether a port consumes or produces data.
#[derive(Debug, Copy, Clone, Eq, PartialEq, Hash, Structural)]
pub enum PortDirection {
    In,
    Out,
}

impl PortDirection {
    /// True for ports that consume data.
    pub fn is_input(self) -> (r: bool)
        ensures
            r == (self == PortDirection::In),
    {
        match self {
            PortDirection::In => true,
            PortDirection::Out => false,
        }
    }

    /// True for ports that produce data.
    pub fn is_output(self) -> (r: bool)
        ensures
            r == (self == PortDirection::Out),
    {
        match self {
            PortDirection::In => false,
            PortDirection::Out => true,
        }
    }

    /// The opposite direction.
    pub fn flip(self) -> (r: PortDirection)
        ensures
            r == self.spec_flip(),
    {
        match self {
            PortDirection::In => PortDirection::Out,
            PortDirection::Out => PortDirection::In,
        }
    }

    pub open spec fn spec_flip(self) -> PortDirection {
        match self {
            PortDirection::In => PortDirection::Out,
            PortDirection::Out => PortDirection::In,
        }
    }
}

/// The kind of data a port carries.
#[derive(Debug, Copy, Clone, Eq, PartialEq, Hash, Structural)]
pub enum PortCategory {
    Midi,
    Audio,
    Unknown,
}

/// Everything the cache records about one port, derived from external
/// metadata at refresh time and immutable afterwards.
#[derive(Debug, PartialEq, Eq, Hash)]
pub struct PortData {
    pub name: PortFullname,
    pub category: PortCategory,
    pub direction: PortDirection,
}

impl PortData {
    pub open spec fn wf(self) -> bool {
        self.name.wf()
    }
}

impl Clone for PortData {
    fn clone(&self) -> (r: Self)
        ensures
            r == self,
    {
        PortData { name: self.name.clone(), category: self.category, direction: self.direction }
    }
}

/// Whether `n` occurs as a contiguous run inside `h`.
pub open spec fn contains_seq(h: Seq<char>, n: Seq<char>) -> bool {
    exists|i: int|
        0 <= i <= h.len() - n.len() && #[trigger] h.subrange(i, i + n.len()) == n
}

/// Searches `hay` for `needle` by scanning every start position.
pub fn str_contains(hay: &str, needle: &str) -> (r: bool)
    ensures
        r == contains_seq(hay@, needle@),
{
    let h = hay.unicode_len();
    let n = needle.unicode_len();
    if n > h {
        return false;
    }
    if n == 0 {
        proof {
            assert(hay@.subrange(0, 0 + needle@.len() as int) =~= needle@);
        }
        return true;
    }
    let mut i: usize = 0;
    while i <= h - n
        invariant
            0 < n <= h,
            i <= h - n + 1,
            h == hay@.len(),
            n == needle@.len(),
            forall|i2: int|
                0 <= i2 < i ==> #[trigger] hay@.subrange(i2, i2 + needle@.len()) != needle@,
        decreases h - n - i + 1,
    {
        let mut j: usize = 0;
        let mut matches_here = true;
        while j < n && matches_here
            invariant
                j <= n,
                i + n <= h,
                h == hay@.len(),
                n == needle@.len(),
                matches_here ==> forall|j2: int| 0 <= j2 < j ==> hay@[i + j2] == needle@[j2],
                !matches_here ==> hay@.subrange(i as int, i + needle@.len()) != needle@,
            decreases n - j + (if matches_here {
                1int
            } else {
                0int
            }),
        {
            if hay.get_char(i + j) != needle.get_char(j) {
                proof {
                    assert(hay@.subrange(i as int, i + needle@.len())[j as int] == hay@[i + j]);
                }
                matches_here = false;
            } else {
                j += 1;
            }
        }
        if matches_here {
            proof {
                assert(hay@.subrange(i as int, i + needle@.len()) =~= needle@);
            }
            return true;
        }
        i += 1;
    }
    proof {
        if contains_seq(hay@, needle@) {
            let i2 = choose|i2: int|
                0 <= i2 <= hay@.len() - needle@.len() && #[trigger] hay@.subrange(
                    i2,
                    i2 + needle@.len(),
                ) == needle@;
            assert(hay@.subrange(i2, i2 + needle@.len()) != needle@);
        }
    }
    false
}

/// What case folding turns a string into; the result depends on the
/// characters alone.
pub uninterp spec fn lower_of(s: Seq<char>) -> Seq<char>;

/// Relies on `str::to_lowercase`: folds the string's case, a function of
/// its characters alone.
#[verifier::external_body]
fn lowercase(s: &str) -> (r: String)
    ensures
        r@ == lower_of(s@),
{
    s.to_lowercase()
}

/// The category a folded type string names: anything mentioning `midi` is
/// MIDI, else anything mentioning `audio` is audio.
pub open spec fn spec_port_category(folded: Seq<char>) -> PortCategory {
    if contains_seq(folded, "midi"@) {
        PortCategory::Midi
    } else if contains_seq(folded, "audio"@) {
        PortCategory::Audio
    } else {
        PortCategory::Unknown
    }
}

/// Classifies an already case-folded type string.
pub fn category_of_folded(folded: &str) -> (r: PortCategory)
    ensures
        r == spec_port_category(folded@),
{
    if str_contains(folded, "midi") {
        PortCategory::Midi
    } else if str_contains(folded, "audio") {
        PortCategory::Audio
    } else {
        PortCategory::Unknown
    }
}

/// The category named by a port's raw type string, compared without
/// regard to case.
pub fn port_category_of(kind: &str) -> (r: PortCategory)
    ensures
        r == spec_port_category(lower_of(kind@)),
{
    let folded = lowercase(kind);
    category_of_folded(folded.as_str())
}

} // verus!
