//! PDF objects held as plain values, and the dictionary operations the form
//! logic needs.
//!
//! Every exec type here has a view in the ghost type [`Obj`], and every
//! operation states its result over that view.

use vstd::prelude::*;

verus! {

/// An indirect object's number and generation.
pub type ObjectId = (u32, u16);

/// A PDF object (PDF 32000-1, 7.3).
#[derive(Debug)]
pub enum PdfObject {
    Null,
    Boolean(bool),
    Integer(i64),
    /// A real number, held as the shortest decimal text that reads back as
    /// the same value (the text Rust prints for it).
    Real(String),
    Name(Vec<u8>),
    /// A string's bytes, and whether it is written in hexadecimal form.
    Str(Vec<u8>, bool),
    Array(Vec<PdfObject>),
    Dictionary(PdfDict),
    Stream(PdfStream),
    Reference(ObjectId),
}

/// A dictionary: its entries in file order. Keys are unique in a dictionary
/// read from a file; every lookup goes by the first entry with a key.
#[derive(Debug)]
pub struct PdfDict {
    pub entries: Vec<(Vec<u8>, PdfObject)>,
}

/// A stream: its dictionary and its raw (possibly encoded) content.
#[derive(Debug)]
pub struct PdfStream {
    pub dict: PdfDict,
    pub content: Vec<u8>,
    pub allows_compression: bool,
    pub start_position: Option<usize>,
}

/// The mathematical value of a dictionary: its entries in order.
pub type DictView = Seq<(Seq<u8>, Obj)>;

/// The mathematical value of a PDF object.
pub enum Obj {
    Null,
    Boolean(bool),
    Integer(i64),
    Real(Seq<char>),
    Name(Seq<u8>),
    Str(Seq<u8>, bool),
    Array(Seq<Obj>),
    Dict(DictView),
    Stream(StreamView),
    Reference(ObjectId),
}

/// The mathematical value of a stream.
pub struct StreamView {
    pub dict: DictView,
    pub content: Seq<u8>,
    pub allows_compression: bool,
    pub start_position: Option<usize>,
}

pub open spec fn items_view(s: Seq<PdfObject>) -> Seq<Obj>
    decreases s,
{
    if s.len() == 0 {
        Seq::empty()
    } else {
        items_view(s.drop_last()).push(s.last().view_obj())
    }
}

pub open spec fn entries_view(s: Seq<(Vec<u8>, PdfObject)>) -> DictView
    decreases s,
{
    if s.len() == 0 {
        Seq::empty()
    } else {
        entries_view(s.drop_last()).push((s.last().0@, s.last().1.view_obj()))
    }
}

impl PdfObject {
    pub open spec fn view_obj(&self) -> Obj
        decreases self,
    {
        match self {
            PdfObject::Null => Obj::Null,
            PdfObject::Boolean(b) => Obj::Boolean(*b),
            PdfObject::Integer(n) => Obj::Integer(*n),
            PdfObject::Real(t) => Obj::Real(t@),
            PdfObject::Name(n) => Obj::Name(n@),
            PdfObject::Str(s, hex) => Obj::Str(s@, *hex),
            PdfObject::Array(v) => Obj::Array(items_view(v@)),
            PdfObject::Dictionary(d) => Obj::Dict(entries_view(d.entries@)),
            PdfObject::Stream(s) => Obj::Stream(
                StreamView {
                    dict: entries_view(s.dict.entries@),
                    content: s.content@,
                    allows_compression: s.allows_compression,
                    start_position: s.start_position,
                },
            ),
            PdfObject::Reference(id) => Obj::Reference(*id),
        }
    }
}

impl View for PdfObject {
    type V = Obj;

    open spec fn view(&self) -> Obj {
        self.view_obj()
    }
}

impl View for PdfDict {
    type V = DictView;

    open spec fn view(&self) -> DictView {
        entries_view(self.entries@)
    }
}

impl View for PdfStream {
    type V = StreamView;

    open spec fn view(&self) -> StreamView {
        StreamView {
            dict: self.dict@,
            content: self.content@,
            allows_compression: self.allows_compression,
            start_position: self.start_position,
        }
    }
}

pub proof fn lemma_items_view(s: Seq<PdfObject>)
    ensures
        items_view(s).len() == s.len(),
        forall|i: int| 0 <= i < s.len() ==> #[trigger] items_view(s)[i] == s[i]@,
    decreases s.len(),
{
    if s.len() > 0 {
        lemma_items_view(s.drop_last());
    }
}

pub proof fn lemma_entries_view(s: Seq<(Vec<u8>, PdfObject)>)
    ensures
        entries_view(s).len() == s.len(),
        forall|i: int|
            0 <= i < s.len() ==> #[trigger] entries_view(s)[i] == (s[i].0@, s[i].1@),
    decreases s.len(),
{
    if s.len() > 0 {
        lemma_entries_view(s.drop_last());
    }
}

/// Whether `i` is the position of the first entry of `d` with key `k`.
pub open spec fn is_first_key(d: DictView, k: Seq<u8>, i: int) -> bool {
    &&& 0 <= i < d.len()
    &&& d[i].0 == k
    &&& forall|j: int| 0 <= j < i ==> d[j].0 != k
}

/// The position of the first entry with key `k`, or -1.
pub open spec fn key_pos(d: DictView, k: Seq<u8>) -> int {
    if exists|i: int| is_first_key(d, k, i) {
        choose|i: int| is_first_key(d, k, i)
    } else {
        -1
    }
}

pub proof fn lemma_key_pos_found(d: DictView, k: Seq<u8>, i: int)
    requires
        is_first_key(d, k, i),
    ensures
        key_pos(d, k) == i,
{
    let j = choose|j: int| is_first_key(d, k, j);
    assert(is_first_key(d, k, j));
    if j < i {
        assert(d[j].0 != k);
    }
    if i < j {
        assert(d[i].0 != k);
    }
}

pub proof fn lemma_key_pos_absent(d: DictView, k: Seq<u8>)
    requires
        forall|j: int| 0 <= j < d.len() ==> d[j].0 != k,
    ensures
        key_pos(d, k) == -1,
{
}

pub proof fn lemma_key_pos_range(d: DictView, k: Seq<u8>)
    ensures
        key_pos(d, k) == -1 || is_first_key(d, k, key_pos(d, k)),
        key_pos(d, k) == -1 <==> forall|j: int| 0 <= j < d.len() ==> d[j].0 != k,
{
    if exists|i: int| is_first_key(d, k, i) {
        let i = choose|i: int| is_first_key(d, k, i);
        assert(d[i].0 == k);
    } else {
        assert forall|j: int| 0 <= j < d.len() implies d[j].0 != k by {
            if d[j].0 == k {
                // the first occurrence exists
                let first = first_occurrence(d, k, j);
                assert(is_first_key(d, k, first));
            }
        }
    }
}

/// Some first position of `k` at or before `j`, given that `d[j]` has key `k`.
pub proof fn first_occurrence(d: DictView, k: Seq<u8>, j: int) -> (i: int)
    requires
        0 <= j < d.len(),
        d[j].0 == k,
    ensures
        is_first_key(d, k, i),
    decreases j,
{
    if exists|m: int| 0 <= m < j && d[m].0 == k {
        let m = choose|m: int| 0 <= m < j && d[m].0 == k;
        first_occurrence(d, k, m)
    } else {
        j
    }
}

/// The value of the first entry with key `k`.
pub open spec fn dict_get(d: DictView, k: Seq<u8>) -> Option<Obj> {
    if key_pos(d, k) >= 0 {
        Some(d[key_pos(d, k)].1)
    } else {
        None
    }
}

pub open spec fn dict_has(d: DictView, k: Seq<u8>) -> bool {
    key_pos(d, k) >= 0
}

/// Setting a key replaces its value in place, or appends a new entry.
pub open spec fn dict_set(d: DictView, k: Seq<u8>, v: Obj) -> DictView {
    if key_pos(d, k) >= 0 {
        d.update(key_pos(d, k), (k, v))
    } else {
        d.push((k, v))
    }
}

/// Removing a key moves the last entry into its place.
pub open spec fn dict_remove(d: DictView, k: Seq<u8>) -> DictView {
    if key_pos(d, k) >= 0 {
        d.update(key_pos(d, k), d.last()).drop_last()
    } else {
        d
    }
}

/// The name of an object's type, as PDF readers report it.
pub open spec fn type_of(o: Obj) -> Seq<char> {
    match o {
        Obj::Null => "Null"@,
        Obj::Boolean(_) => "Boolean"@,
        Obj::Integer(_) => "Integer"@,
        Obj::Real(_) => "Real"@,
        Obj::Name(_) => "Name"@,
        Obj::Str(_, _) => "String"@,
        Obj::Array(_) => "Array"@,
        Obj::Dict(_) => "Dictionary"@,
        Obj::Stream(_) => "Stream"@,
        Obj::Reference(_) => "Reference"@,
    }
}

/// The name of an object's type.
pub fn kind_name(o: &PdfObject) -> (r: &'static str)
    ensures
        r@ == type_of(o@),
{
    match o {
        PdfObject::Null => "Null",
        PdfObject::Boolean(_) => "Boolean",
        PdfObject::Integer(_) => "Integer",
        PdfObject::Real(_) => "Real",
        PdfObject::Name(_) => "Name",
        PdfObject::Str(_, _) => "String",
        PdfObject::Array(_) => "Array",
        PdfObject::Dictionary(_) => "Dictionary",
        PdfObject::Stream(_) => "Stream",
        PdfObject::Reference(_) => "Reference",
    }
}

/// Whether no two entries of a dictionary share a key, as in every
/// dictionary read from a file.
pub open spec fn keys_unique(d: DictView) -> bool {
    forall|i: int, j: int| 0 <= i < j < d.len() ==> d[i].0 != d[j].0
}

/// In a dictionary whose keys are unique, an entry is the first with its key.
pub proof fn lemma_key_pos_unique(d: DictView, k: Seq<u8>, i: int)
    requires
        keys_unique(d),
        0 <= i < d.len(),
        d[i].0 == k,
    ensures
        key_pos(d, k) == i,
        dict_get(d, k) == Some(d[i].1),
{
    assert(is_first_key(d, k, i));
    lemma_key_pos_found(d, k, i);
}

/// Setting a key gives it its new value and leaves every other key's.
pub proof fn lemma_dict_set(d: DictView, k: Seq<u8>, v: Obj)
    ensures
        dict_get(dict_set(d, k, v), k) == Some(v),
        forall|k2: Seq<u8>| k2 != k ==> #[trigger] dict_get(dict_set(d, k, v), k2) == dict_get(d, k2),
        keys_unique(d) ==> keys_unique(dict_set(d, k, v)),
{
    let e = dict_set(d, k, v);
    let p = key_pos(d, k);
    lemma_key_pos_range(d, k);
    if p >= 0 {
        assert(is_first_key(e, k, p));
        lemma_key_pos_found(e, k, p);
    } else {
        assert(is_first_key(e, k, d.len() as int));
        lemma_key_pos_found(e, k, d.len() as int);
    }
    assert forall|k2: Seq<u8>| k2 != k implies #[trigger] dict_get(dict_set(d, k, v), k2)
        == dict_get(d, k2) by {
        lemma_key_pos_range(d, k2);
        let q = key_pos(d, k2);
        if q >= 0 {
            assert(is_first_key(e, k2, q));
            lemma_key_pos_found(e, k2, q);
        } else {
            assert forall|j: int| 0 <= j < e.len() implies e[j].0 != k2 by {
                if j < d.len() && j != p {
                    assert(e[j] == d[j]);
                }
            }
            lemma_key_pos_absent(e, k2);
        }
    }
}

/// With unique keys, removing a key leaves it absent, every other key's
/// value as it was, and the keys still unique.
pub proof fn lemma_dict_remove(d: DictView, k: Seq<u8>)
    requires
        keys_unique(d),
    ensures
        dict_get(dict_remove(d, k), k) is None,
        forall|k2: Seq<u8>| k2 != k ==> #[trigger] dict_get(dict_remove(d, k), k2) == dict_get(d, k2),
        keys_unique(dict_remove(d, k)),
{
    let e = dict_remove(d, k);
    let p = key_pos(d, k);
    lemma_key_pos_range(d, k);
    if p >= 0 {
        let last = d.len() - 1;
        // Where each entry of `e` came from in `d`.
        assert forall|i: int| 0 <= i < e.len() implies #[trigger] e[i] == d[if i == p {
            last
        } else {
            i
        }] by {}
        assert forall|i: int, j: int| 0 <= i < j < e.len() implies e[i].0 != e[j].0 by {
            let a = if i == p { last } else { i };
            let b = if j == p { last } else { j };
            assert(e[i] == d[a] && e[j] == d[b]);
            if a < b {
                assert(d[a].0 != d[b].0);
            } else {
                assert(d[b].0 != d[a].0);
            }
        }
        assert forall|j: int| 0 <= j < e.len() implies e[j].0 != k by {
            let a = if j == p { last } else { j };
            assert(e[j] == d[a]);
            if a < p {
                assert(d[a].0 != d[p].0);
            } else {
                assert(d[p].0 != d[a].0);
            }
        }
        lemma_key_pos_absent(e, k);
        assert forall|k2: Seq<u8>| k2 != k implies #[trigger] dict_get(dict_remove(d, k), k2)
            == dict_get(d, k2) by {
            lemma_key_pos_range(d, k2);
            let q = key_pos(d, k2);
            if q >= 0 {
                let q2 = if q == last { p } else { q };
                assert(e[q2] == d[q]);
                lemma_key_pos_unique(e, k2, q2);
            } else {
                assert forall|j: int| 0 <= j < e.len() implies e[j].0 != k2 by {
                    let a = if j == p { last } else { j };
                    assert(e[j] == d[a]);
                }
                lemma_key_pos_absent(e, k2);
            }
        }
    }
}

/// Whether two objects are equal, as PDF objects are compared: dictionaries
/// by their keys and values whatever the order of their entries.
pub open spec fn obj_eq(a: Obj, b: Obj) -> bool
    decreases a,
{
    match (a, b) {
        (Obj::Array(x), Obj::Array(y)) => x.len() == y.len() && items_eq(x, y, x.len() as int),
        (Obj::Dict(x), Obj::Dict(y)) => dict_eq(x, y),
        (Obj::Stream(x), Obj::Stream(y)) => {
            &&& dict_eq(x.dict, y.dict)
            &&& x.content == y.content
            &&& x.allows_compression == y.allows_compression
            &&& x.start_position == y.start_position
        },
        _ => a == b,
    }
}

/// The first `n` items of `x` and `y` are pairwise equal.
pub open spec fn items_eq(x: Seq<Obj>, y: Seq<Obj>, n: int) -> bool
    decreases x, n,
{
    if n <= 0 || n > x.len() || n > y.len() {
        n <= 0
    } else {
        items_eq(x, y, n - 1) && obj_eq(x[n - 1], y[n - 1])
    }
}

/// Same number of entries, and each entry of `x` is found in `y` with an
/// equal value.
pub open spec fn dict_eq(x: DictView, y: DictView) -> bool
    decreases x,
{
    x.len() == y.len() && entries_found(x, y, x.len() as int)
}

/// Each of the first `n` entries of `x` is found in `y` with an equal value.
pub open spec fn entries_found(x: DictView, y: DictView, n: int) -> bool
    decreases x, n,
{
    if n <= 0 || n > x.len() {
        n <= 0
    } else {
        &&& entries_found(x, y, n - 1)
        &&& match dict_get(y, x[n - 1].0) {
            Some(v) => obj_eq(x[n - 1].1, v),
            None => false,
        }
    }
}


pub proof fn lemma_items_eq_prefix(x: Seq<Obj>, y: Seq<Obj>, m: int, n: int)
    requires
        0 <= m <= n,
        items_eq(x, y, n),
    ensures
        items_eq(x, y, m),
    decreases n - m,
{
    if m < n {
        lemma_items_eq_prefix(x, y, m, n - 1);
    }
}

pub proof fn lemma_entries_found_prefix(x: DictView, y: DictView, m: int, n: int)
    requires
        0 <= m <= n,
        entries_found(x, y, n),
    ensures
        entries_found(x, y, m),
    decreases n - m,
{
    if m < n {
        lemma_entries_found_prefix(x, y, m, n - 1);
    }
}

/// Whether two byte strings are equal.
pub fn bytes_equal(a: &[u8], b: &[u8]) -> (r: bool)
    ensures
        r == (a@ == b@),
{
    if a.len() != b.len() {
        return false;
    }
    let mut i: usize = 0;
    while i < a.len()
        invariant
            a@.len() == b@.len(),
            i <= a@.len(),
            forall|j: int| 0 <= j < i ==> a@[j] == b@[j],
        decreases a@.len() - i,
    {
        if a[i] != b[i] {
            return false;
        }
        i += 1;
    }
    assert(a@ =~= b@);
    true
}

/// A copy of a byte string.
pub fn copy_bytes(a: &[u8]) -> (r: Vec<u8>)
    ensures
        r@ == a@,
{
    let mut out: Vec<u8> = Vec::new();
    let mut i: usize = 0;
    while i < a.len()
        invariant
            i <= a@.len(),
            out@ == a@.subrange(0, i as int),
        decreases a@.len() - i,
    {
        out.push(a[i]);
        i += 1;
    }
    assert(out@ =~= a@);
    out
}

/// A copy of a string.
pub fn copy_string(s: &String) -> (r: String)
    ensures
        r@ == s@,
{
    s.clone()
}


/// Whether two objects are equal, as PDF objects are compared.
#[verifier::loop_isolation(false)]
pub fn objects_equal(a: &PdfObject, b: &PdfObject) -> (r: bool)
    ensures
        r == obj_eq(a@, b@),
    decreases a,
{
    match (a, b) {
        (PdfObject::Null, PdfObject::Null) => true,
        (PdfObject::Boolean(p), PdfObject::Boolean(q)) => *p == *q,
        (PdfObject::Integer(p), PdfObject::Integer(q)) => *p == *q,
        (PdfObject::Real(p), PdfObject::Real(q)) => p.eq(q),
        (PdfObject::Name(p), PdfObject::Name(q)) => bytes_equal(p.as_slice(), q.as_slice()),
        (PdfObject::Str(p, ph), PdfObject::Str(q, qh)) => *ph == *qh && bytes_equal(
            p.as_slice(),
            q.as_slice(),
        ),
        (PdfObject::Reference(p), PdfObject::Reference(q)) => p.0 == q.0 && p.1 == q.1,
        (PdfObject::Array(x), PdfObject::Array(y)) => {
            proof {
                lemma_items_view(x@);
                lemma_items_view(y@);
            }
            if x.len() != y.len() {
                return false;
            }
            let mut i: usize = 0;
            while i < x.len()
                invariant
                    i <= x.len(),
                    x.len() == y.len(),
                    items_eq(a@->Array_0, b@->Array_0, i as int),
                decreases x.len() - i,
            {
                proof {
                    assert(decreases_to!(*a => a->Array_0));
                    assert(decreases_to!(*x => x[i as int]));
                }
                if !objects_equal(&x[i], &y[i]) {
                    proof {
                        if items_eq(a@->Array_0, b@->Array_0, x@.len() as int) {
                            lemma_items_eq_prefix(a@->Array_0, b@->Array_0, i + 1, x@.len() as int);
                        }
                    }
                    return false;
                }
                i += 1;
            }
            true
        },
        (PdfObject::Dictionary(x), PdfObject::Dictionary(y)) => {
            proof {
                assert(decreases_to!(*a => a->Dictionary_0));
            }
            dicts_equal(x, y)
        },
        (PdfObject::Stream(x), PdfObject::Stream(y)) => {
            proof {
                assert(decreases_to!(*a => a->Stream_0));
                assert(decreases_to!(*x => x.dict));
            }
            dicts_equal(&x.dict, &y.dict) && bytes_equal(x.content.as_slice(), y.content.as_slice())
                && x.allows_compression == y.allows_compression && x.start_position
                == y.start_position
        },
        _ => false,
    }
}

/// Whether two dictionaries hold equal values under the same keys, whatever
/// the order of their entries.
#[verifier::loop_isolation(false)]
pub fn dicts_equal(x: &PdfDict, y: &PdfDict) -> (r: bool)
    ensures
        r == dict_eq(x@, y@),
    decreases x,
{
    proof {
        lemma_entries_view(x.entries@);
    }
    if x.len() != y.len() {
        return false;
    }
    let mut i: usize = 0;
    while i < x.entries.len()
        invariant
            i <= x.entries@.len(),
            x@.len() == y@.len(),
            entries_found(x@, y@, i as int),
        decreases x.entries@.len() - i,
    {
        proof {
            assert(decreases_to!(*x => x.entries));
            assert(decreases_to!(x.entries => x.entries[i as int]));
            assert(decreases_to!(x.entries[i as int] => x.entries[i as int].1));
        }
        match y.get(x.entries[i].0.as_slice()) {
            Some(v) => {
                if !objects_equal(&x.entries[i].1, v) {
                    proof {
                        if entries_found(x@, y@, x@.len() as int) {
                            lemma_entries_found_prefix(x@, y@, i + 1, x@.len() as int);
                        }
                    }
                    return false;
                }
            },
            None => {
                proof {
                    if entries_found(x@, y@, x@.len() as int) {
                        lemma_entries_found_prefix(x@, y@, i + 1, x@.len() as int);
                    }
                }
                return false;
            },
        }
        i += 1;
    }
    true
}

impl PdfObject {
    /// A deep copy, equal to the original.
    #[verifier::loop_isolation(false)]
    pub fn duplicate(&self) -> (r: PdfObject)
        ensures
            r@ == self@,
        decreases self,
    {
        match self {
            PdfObject::Null => PdfObject::Null,
            PdfObject::Boolean(b) => PdfObject::Boolean(*b),
            PdfObject::Integer(n) => PdfObject::Integer(*n),
            PdfObject::Real(t) => PdfObject::Real(copy_string(t)),
            PdfObject::Name(n) => PdfObject::Name(copy_bytes(n.as_slice())),
            PdfObject::Str(s, hex) => PdfObject::Str(copy_bytes(s.as_slice()), *hex),
            PdfObject::Array(v) => {
                let mut out: Vec<PdfObject> = Vec::new();
                let mut i: usize = 0;
                while i < v.len()
                    invariant
                        i <= v.len(),
                        out@.len() == i,
                        forall|j: int| 0 <= j < i ==> #[trigger] out@[j]@ == v@[j]@,
                    decreases v.len() - i,
                {
                    proof {
                        assert(decreases_to!(*self => self->Array_0));
                        assert(decreases_to!(*v => v[i as int]));
                    }
                    let x = v[i].duplicate();
                    out.push(x);
                    i += 1;
                }
                proof {
                    lemma_items_view(out@);
                    lemma_items_view(v@);
                }
                assert(items_view(out@) =~= items_view(v@));
                PdfObject::Array(out)
            },
            PdfObject::Dictionary(d) => {
                proof {
                    assert(decreases_to!(*self => self->Dictionary_0));
                }
                PdfObject::Dictionary(d.duplicate())
            },
            PdfObject::Stream(s) => {
                proof {
                    assert(decreases_to!(*self => self->Stream_0));
                    assert(decreases_to!(*s => s.dict));
                }
                let dict = s.dict.duplicate();
                PdfObject::Stream(
                    PdfStream {
                        dict,
                        content: copy_bytes(s.content.as_slice()),
                        allows_compression: s.allows_compression,
                        start_position: s.start_position,
                    },
                )
            },
            PdfObject::Reference(id) => PdfObject::Reference(*id),
        }
    }
}

impl PdfDict {
    /// A deep copy, equal to the original.
    #[verifier::loop_isolation(false)]
    pub fn duplicate(&self) -> (r: PdfDict)
        ensures
            r@ == self@,
        decreases self,
    {
        let d = &self.entries;
        let mut out: Vec<(Vec<u8>, PdfObject)> = Vec::new();
        let mut i: usize = 0;
        while i < d.len()
            invariant
                i <= d.len(),
                out@.len() == i,
                forall|j: int|
                    0 <= j < i ==> #[trigger] out@[j].1@ == d@[j].1@ && out@[j].0@ == d@[j].0@,
            decreases d.len() - i,
        {
            proof {
                assert(decreases_to!(*self => self.entries));
                assert(decreases_to!(*d => d[i as int]));
                assert(decreases_to!(d[i as int] => d[i as int].1));
            }
            let k = copy_bytes(d[i].0.as_slice());
            let x = d[i].1.duplicate();
            out.push((k, x));
            i += 1;
        }
        proof {
            lemma_entries_view(out@);
            lemma_entries_view(d@);
        }
        assert(entries_view(out@) =~= entries_view(d@));
        PdfDict { entries: out }
    }

    /// The position of the first entry with the given key.
    pub fn position(&self, key: &[u8]) -> (r: Option<usize>)
        ensures
            match r {
                Some(i) => key_pos(self@, key@) == i,
                None => key_pos(self@, key@) == -1,
            },
    {
        proof {
            lemma_entries_view(self.entries@);
        }
        let mut i: usize = 0;
        while i < self.entries.len()
            invariant
                i <= self.entries@.len(),
                self@.len() == self.entries@.len(),
                forall|j: int| 0 <= j < self@.len() ==> #[trigger] self@[j].0 == self.entries@[j].0@,
                forall|j: int| 0 <= j < i ==> self@[j].0 != key@,
            decreases self.entries@.len() - i,
        {
            if bytes_equal(self.entries[i].0.as_slice(), key) {
                proof {
                    lemma_key_pos_found(self@, key@, i as int);
                }
                return Some(i);
            }
            i += 1;
        }
        proof {
            lemma_key_pos_absent(self@, key@);
        }
        None
    }

    /// The value of the first entry with the given key.
    pub fn get(&self, key: &[u8]) -> (r: Option<&PdfObject>)
        ensures
            match r {
                Some(o) => dict_get(self@, key@) == Some(o@),
                None => dict_get(self@, key@) is None,
            },
    {
        proof {
            lemma_entries_view(self.entries@);
        }
        match self.position(key) {
            Some(i) => Some(&self.entries[i].1),
            None => None,
        }
    }

    pub fn has(&self, key: &[u8]) -> (r: bool)
        ensures
            r == dict_has(self@, key@),
    {
        self.position(key).is_some()
    }

    /// Set a key, replacing its value in place or appending a new entry.
    pub fn set(&mut self, key: Vec<u8>, value: PdfObject)
        ensures
            final(self)@ == dict_set(old(self)@, key@, value@),
    {
        proof {
            lemma_entries_view(self.entries@);
            lemma_key_pos_range(self@, key@);
        }
        let ghost k = key@;
        let ghost v = value@;
        match self.position(key.as_slice()) {
            Some(i) => {
                self.entries.set(i, (key, value));
                proof {
                    lemma_entries_view(self.entries@);
                }
                assert(self@ =~= dict_set(old(self)@, k, v));
            },
            None => {
                self.entries.push((key, value));
                proof {
                    lemma_entries_view(self.entries@);
                }
                assert(self@ =~= dict_set(old(self)@, k, v));
            },
        }
    }

    /// Remove a key, moving the last entry into its place.
    pub fn remove(&mut self, key: &[u8])
        ensures
            final(self)@ == dict_remove(old(self)@, key@),
    {
        proof {
            lemma_entries_view(self.entries@);
            lemma_key_pos_range(self@, key@);
        }
        match self.position(key) {
            Some(i) => {
                let _removed = self.entries.swap_remove(i);
                proof {
                    lemma_entries_view(self.entries@);
                }
                assert(self@ =~= dict_remove(old(self)@, key@));
            },
            None => {},
        }
    }

    /// The number of entries.
    pub fn len(&self) -> (r: usize)
        ensures
            r == self@.len(),
    {
        proof {
            lemma_entries_view(self.entries@);
        }
        self.entries.len()
    }
}

} // verus!
