//! Namespaced identifiers: byte-string handles and dotted paths.

use vstd::prelude::*;
use vstd::string::StringSliceAdditionalSpecFns;
use vstd::utf8::*;

verus! {

/// The byte `.` that separates a namespace from a local name.
pub const PATH_DELIM: u8 = 46;

/// An immutable byte-string handle, compared structurally.
#[derive(Clone, Debug, Hash)]
pub struct StringName(Vec<u8>);

impl View for StringName {
    type V = Seq<u8>;

    closed spec fn view(&self) -> Seq<u8> {
        self.0@
    }
}

impl PartialEq for StringName {
    fn eq(&self, o: &StringName) -> (r: bool) {
        same_bytes(&self.0, &o.0)
    }
}

impl vstd::std_specs::cmp::PartialEqSpecImpl for StringName {
    open spec fn obeys_eq_spec() -> bool {
        true
    }

    open spec fn eq_spec(&self, o: &StringName) -> bool {
        self@ == o@
    }
}

impl Eq for StringName {
}

/// Byte-wise equality of two byte strings.
pub fn same_bytes(a: &Vec<u8>, b: &Vec<u8>) -> (r: bool)
    ensures
        r == (a@ == b@),
{
    if a.len() != b.len() {
        return false;
    }
    let mut i: usize = 0;
    while i < a.len()
        invariant
            a.len() == b.len(),
            i <= a.len(),
            forall|j: int| 0 <= j < i ==> a@[j] == b@[j],
        decreases a.len() - i,
    {
        if a[i] != b[i] {
            return false;
        }
        i = i + 1;
    }
    assert(a@ =~= b@);
    true
}

/// The UTF-8 encoding of a string slice, as an owned byte vector.
pub fn str_bytes(s: &str) -> (r: Vec<u8>)
    ensures
        r@ == s.spec_bytes(),
{
    let b = s.as_bytes();
    let mut r: Vec<u8> = Vec::new();
    let mut i: usize = 0;
    while i < b.len()
        invariant
            b@ == s.spec_bytes(),
            i <= b@.len(),
            r@ =~= b@.subrange(0, i as int),
        decreases b@.len() - i,
    {
        r.push(b[i]);
        i = i + 1;
    }
    r
}

/// What a byte string reads as text: its characters when it is valid
/// UTF-8, and the empty text otherwise.
pub open spec fn text_of(b: Seq<u8>) -> Seq<char> {
    if valid_utf8(b) {
        decode_utf8(b)
    } else {
        Seq::empty()
    }
}

/// Relies on `String::from_utf8`: it succeeds exactly on valid UTF-8, and
/// the string it returns is encoded by those very bytes.
#[verifier::external_body]
fn utf8_string(v: Vec<u8>) -> (r: Option<String>)
    ensures
        r.is_some() <==> valid_utf8(v@),
        r matches Some(s) ==> encode_utf8(s@) == v@,
{
    String::from_utf8(v).ok()
}

impl StringName {
    /// A name holding exactly the given bytes.
    pub fn from_bytes(bytes: Vec<u8>) -> (r: StringName)
        ensures
            r@ == bytes@,
    {
        StringName(bytes)
    }

    /// A name holding the UTF-8 encoding of `s`.
    pub fn from_text(s: &str) -> (r: StringName)
        ensures
            r@ == s.spec_bytes(),
    {
        StringName(str_bytes(s))
    }

    /// A copy of this name.
    pub fn duplicate(&self) -> (r: StringName)
        ensures
            r@ == self@,
    {
        let v = self.0.clone();
        assert(v@ =~= self.0@);
        StringName(v)
    }

    /// The bytes of this name.
    pub fn as_bytes(&self) -> (r: &Vec<u8>)
        ensures
            r@ == self@,
    {
        &self.0
    }

    /// Whether the name holds no bytes.
    pub fn is_empty(&self) -> (r: bool)
        ensures
            r == (self@.len() == 0),
    {
        self.0.len() == 0
    }

    /// The name as text; a name that is not valid UTF-8 reads as empty.
    pub fn to_text(&self) -> (r: String)
        ensures
            r@ == text_of(self@),
    {
        match utf8_string(self.0.clone()) {
            Some(s) => {
                proof {
                    encode_utf8_decode_utf8(s@);
                }
                s
            },
            None => String::new(),
        }
    }
}

/// The namespace part of a qualified name.
#[derive(Clone, Debug, Hash)]
pub struct Namespace(pub StringName);

/// The local part of a qualified name.
#[derive(Clone, Debug, Hash)]
pub struct TypeName(pub StringName);

/// A qualified name: a namespace and a local name within it.
#[derive(Clone, Debug, Hash)]
pub struct GlobalName(pub Namespace, pub TypeName);

impl View for Namespace {
    type V = Seq<u8>;

    open spec fn view(&self) -> Seq<u8> {
        self.0@
    }
}

impl View for TypeName {
    type V = Seq<u8>;

    open spec fn view(&self) -> Seq<u8> {
        self.0@
    }
}

impl View for GlobalName {
    type V = (Seq<u8>, Seq<u8>);

    open spec fn view(&self) -> (Seq<u8>, Seq<u8>) {
        (self.0@, self.1@)
    }
}

impl PartialEq for Namespace {
    fn eq(&self, o: &Namespace) -> (r: bool) {
        self.0 == o.0
    }
}

impl vstd::std_specs::cmp::PartialEqSpecImpl for Namespace {
    open spec fn obeys_eq_spec() -> bool {
        true
    }

    open spec fn eq_spec(&self, o: &Namespace) -> bool {
        self@ == o@
    }
}

impl Eq for Namespace {
}

impl PartialEq for TypeName {
    fn eq(&self, o: &TypeName) -> (r: bool) {
        self.0 == o.0
    }
}

impl vstd::std_specs::cmp::PartialEqSpecImpl for TypeName {
    open spec fn obeys_eq_spec() -> bool {
        true
    }

    open spec fn eq_spec(&self, o: &TypeName) -> bool {
        self@ == o@
    }
}

impl Eq for TypeName {
}

impl PartialEq for GlobalName {
    fn eq(&self, o: &GlobalName) -> (r: bool) {
        self.0 == o.0 && self.1 == o.1
    }
}

impl vstd::std_specs::cmp::PartialEqSpecImpl for GlobalName {
    open spec fn obeys_eq_spec() -> bool {
        true
    }

    open spec fn eq_spec(&self, o: &GlobalName) -> bool {
        self@ == o@
    }
}

impl Eq for GlobalName {
}

/// Position of the last `.` in `b`, or -1 when there is none.
pub open spec fn last_delim(b: Seq<u8>) -> int
    decreases b.len(),
{
    if b.len() == 0 {
        -1
    } else if b.last() == PATH_DELIM {
        b.len() - 1
    } else {
        last_delim(b.drop_last())
    }
}

/// A dotted path split at its last `.`: the namespace before it and the
/// local name after it; a path with no `.` has an empty namespace.
pub open spec fn split_path(b: Seq<u8>) -> (Seq<u8>, Seq<u8>) {
    let i = last_delim(b);
    if i < 0 {
        (Seq::empty(), b)
    } else {
        (b.subrange(0, i), b.subrange(i + 1, b.len() as int))
    }
}

/// The dotted text of a qualified name: namespace, `.`, local name.
pub open spec fn path_text(n: (Seq<u8>, Seq<u8>)) -> Seq<char> {
    text_of(n.0) + seq!['.'] + text_of(n.1)
}

pub proof fn lemma_last_delim_of(b: Seq<u8>, i: int)
    requires
        -1 <= i < b.len(),
        i >= 0 ==> b[i] == PATH_DELIM,
        forall|j: int| i < j < b.len() ==> b[j] != PATH_DELIM,
    ensures
        last_delim(b) == i,
    decreases b.len(),
{
    if b.len() > 0 && b.last() != PATH_DELIM {
        if i >= 0 {
            assert(i < b.len() - 1);
            assert(b.drop_last()[i] == b[i]);
        }
        lemma_last_delim_of(b.drop_last(), i);
    }
}

/// The bytes `b[lo..hi]` as a fresh vector.
pub fn byte_range(b: &Vec<u8>, lo: usize, hi: usize) -> (r: Vec<u8>)
    requires
        lo <= hi <= b.len(),
    ensures
        r@ == b@.subrange(lo as int, hi as int),
{
    let mut r: Vec<u8> = Vec::new();
    let mut i: usize = lo;
    while i < hi
        invariant
            lo <= i <= hi <= b.len(),
            r@ =~= b@.subrange(lo as int, i as int),
        decreases hi - i,
    {
        r.push(b[i]);
        i = i + 1;
    }
    r
}

impl GlobalName {
    /// A qualified name made of two byte strings.
    pub fn new(namespace: StringName, local: StringName) -> (r: GlobalName)
        ensures
            r@ == (namespace@, local@),
    {
        GlobalName(Namespace(namespace), TypeName(local))
    }

    /// Parses a dotted path, splitting it at its last `.`.
    pub fn from_path(path: &str) -> (r: GlobalName)
        ensures
            r@ == split_path(path.spec_bytes()),
    {
        let b = str_bytes(path);
        let mut i: usize = b.len();
        while i > 0
            invariant
                b@ == path.spec_bytes(),
                i <= b.len(),
                forall|j: int| i <= j < b.len() ==> b@[j] != PATH_DELIM,
            decreases i,
        {
            if b[i - 1] == PATH_DELIM {
                proof {
                    lemma_last_delim_of(b@, i - 1);
                }
                let ns = byte_range(&b, 0, i - 1);
                let tn = byte_range(&b, i, b.len());
                assert(split_path(b@) == (ns@, tn@));
                let r = GlobalName::new(StringName::from_bytes(ns), StringName::from_bytes(tn));
                return r;
            }
            i = i - 1;
        }
        proof {
            lemma_last_delim_of(b@, -1);
        }
        GlobalName::new(StringName::from_bytes(Vec::new()), StringName::from_bytes(b))
    }

    /// The dotted path of this name: namespace, `.`, local name, each part
    /// read as text.
    pub fn to_path(&self) -> (r: String)
        ensures
            r@ == path_text(self@),
    {
        let ns = self.0.0.to_text();
        let tn = self.1.0.to_text();
        let mut r = ns;
        proof {
            reveal_strlit(".");
        }
        r.append(".");
        r.append(tn.as_str());
        r
    }

    /// Whether both parts of the name are empty.
    pub fn is_empty(&self) -> (r: bool)
        ensures
            r == (self@.0.len() == 0 && self@.1.len() == 0),
    {
        self.0.0.is_empty() && self.1.0.is_empty()
    }

    /// A copy of this name.
    pub fn duplicate(&self) -> (r: GlobalName)
        ensures
            r@ == self@,
    {
        GlobalName(Namespace(self.0.0.duplicate()), TypeName(self.1.0.duplicate()))
    }
}

} // verus!
