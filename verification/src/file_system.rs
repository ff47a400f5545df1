pub mod dir;
pub mod laws;
pub mod file;
pub mod text;

use vstd::prelude::*;

use crate::file_system::dir::{
    lemma_node_dir_view, lemma_node_file_view, spec_get_file, spec_mk_dir, spec_new_file,
    spec_rm_dir, spec_rm_file, spec_set_file, Dir, DirV, Node, NodeV,
};
use crate::file_system::file::{timestamp_to_u64, CustomError, File, FileType, FileV};
use crate::file_system::text::{
    bytes_to_text, contains_str, eq_str, lemma_str_lt_connected, lemma_str_lt_transitive, lt_str,
    parse_u64, parse_uint, str_contains, str_lt,
};

verus! {

/// A parsed search predicate: its raw `"kind:argument"` string together
/// with the typed argument.
pub enum Queries {
    Name(String, String),
    Content(String, String),
    Larger(String, usize),
    Smaller(String, usize),
    Newer(String, u64),
    Older(String, u64),
}

/// Mathematical model of a [`Queries`] value.
#[verifier::ext_equal]
pub enum QueryV {
    Name(Seq<char>, Seq<char>),
    Content(Seq<char>, Seq<char>),
    Larger(Seq<char>, usize),
    Smaller(Seq<char>, usize),
    Newer(Seq<char>, u64),
    Older(Seq<char>, u64),
}

impl View for Queries {
    type V = QueryV;

    open spec fn view(&self) -> QueryV {
        match self {
            Queries::Name(raw, s) => QueryV::Name(raw@, s@),
            Queries::Content(raw, s) => QueryV::Content(raw@, s@),
            Queries::Larger(raw, n) => QueryV::Larger(raw@, *n),
            Queries::Smaller(raw, n) => QueryV::Smaller(raw@, *n),
            Queries::Newer(raw, t) => QueryV::Newer(raw@, *t),
            Queries::Older(raw, t) => QueryV::Older(raw@, *t),
        }
    }
}

/// The raw query string a parsed query came from.
pub open spec fn qv_raw(q: QueryV) -> Seq<char> {
    match q {
        QueryV::Name(raw, _) => raw,
        QueryV::Content(raw, _) => raw,
        QueryV::Larger(raw, _) => raw,
        QueryV::Smaller(raw, _) => raw,
        QueryV::Newer(raw, _) => raw,
        QueryV::Older(raw, _) => raw,
    }
}

/// The models of a sequence of parsed queries.
pub open spec fn queries_view(qs: Seq<Queries>) -> Seq<QueryV> {
    qs.map_values(|q: Queries| q@)
}

/// Index of the first `:` in `s`, or `-1` when `s` holds none.
pub open spec fn first_colon(s: Seq<char>) -> int
    decreases s.len(),
{
    if s.len() == 0 {
        -1
    } else if s[0] == ':' {
        0
    } else {
        let r = first_colon(s.drop_first());
        if r < 0 {
            -1
        } else {
            r + 1
        }
    }
}

pub proof fn lemma_first_colon(s: Seq<char>)
    ensures
        -1 <= first_colon(s) < s.len(),
        first_colon(s) >= 0 ==> s[first_colon(s)] == ':',
        forall|j: int| 0 <= j < first_colon(s) ==> s[j] != ':',
        first_colon(s) < 0 ==> forall|j: int| 0 <= j < s.len() ==> s[j] != ':',
    decreases s.len(),
{
    if s.len() > 0 && s[0] != ':' {
        lemma_first_colon(s.drop_first());
        let r = first_colon(s);
        if r >= 0 {
            assert forall|j: int| 0 <= j < r implies s[j] != ':' by {
                if j > 0 {
                    assert(s.drop_first()[j - 1] == s[j]);
                }
            }
        } else {
            assert forall|j: int| 0 <= j < s.len() implies s[j] != ':' by {
                if j > 0 {
                    assert(s.drop_first()[j - 1] == s[j]);
                }
            }
        }
    }
}

/// The query denoted by the raw string `s`: the text before the first colon
/// picks the predicate, the text after it is the argument. `None` for a
/// missing colon, an unknown predicate, or an unparsable number.
pub open spec fn spec_parse_query(s: Seq<char>) -> Option<QueryV> {
    let c = first_colon(s);
    if c < 0 {
        None
    } else {
        let kind = s.take(c);
        let val = s.skip(c + 1);
        if kind == "name"@ {
            Some(QueryV::Name(s, val))
        } else if kind == "content"@ {
            Some(QueryV::Content(s, val))
        } else if kind == "larger"@ {
            match parse_uint(val) {
                Some(v) => if v <= usize::MAX as int {
                    Some(QueryV::Larger(s, v as usize))
                } else {
                    None
                },
                None => None,
            }
        } else if kind == "smaller"@ {
            match parse_uint(val) {
                Some(v) => if v <= usize::MAX as int {
                    Some(QueryV::Smaller(s, v as usize))
                } else {
                    None
                },
                None => None,
            }
        } else if kind == "newer"@ {
            match parse_uint(val) {
                Some(v) => if v <= u64::MAX as int {
                    Some(QueryV::Newer(s, v as u64))
                } else {
                    None
                },
                None => None,
            }
        } else if kind == "older"@ {
            match parse_uint(val) {
                Some(v) => if v <= u64::MAX as int {
                    Some(QueryV::Older(s, v as u64))
                } else {
                    None
                },
                None => None,
            }
        } else {
            None
        }
    }
}

/// Parses one raw query string; see [`spec_parse_query`].
pub fn parse_query(raw: &String) -> (r: Option<Queries>)
    ensures
        match r {
            Some(q) => spec_parse_query(raw@) == Some(q@),
            None => spec_parse_query(raw@) is None,
        },
{
    proof {
        lemma_first_colon(raw@);
    }
    let s = raw.as_str();
    let n = s.unicode_len();
    let mut c: usize = 0;
    let mut found = false;
    while c < n && !found
        invariant
            c <= n,
            n == raw@.len(),
            s@ == raw@,
            found ==> c < n && raw@[c as int] == ':',
            forall|j: int| 0 <= j < c ==> raw@[j] != ':',
        decreases n - c, (if found { 0int } else { 1int }),
    {
        if s.get_char(c) == ':' {
            found = true;
        } else {
            c = c + 1;
        }
    }
    if !found {
        proof {
            assert(first_colon(raw@) < 0);
        }
        return None;
    }
    proof {
        assert(first_colon(raw@) == c as int);
    }
    let kind = s.substring_char(0, c);
    let val = s.substring_char(c + 1, n);
    proof {
        assert(kind@ =~= raw@.take(c as int));
        assert(val@ =~= raw@.skip(c as int + 1));
    }
    if eq_str(kind, "name") {
        Some(Queries::Name(raw.clone(), val.to_owned()))
    } else if eq_str(kind, "content") {
        Some(Queries::Content(raw.clone(), val.to_owned()))
    } else if eq_str(kind, "larger") {
        match parse_u64(val) {
            Some(v) => if v <= usize::MAX as u64 {
                Some(Queries::Larger(raw.clone(), v as usize))
            } else {
                None
            },
            None => None,
        }
    } else if eq_str(kind, "smaller") {
        match parse_u64(val) {
            Some(v) => if v <= usize::MAX as u64 {
                Some(Queries::Smaller(raw.clone(), v as usize))
            } else {
                None
            },
            None => None,
        }
    } else if eq_str(kind, "newer") {
        match parse_u64(val) {
            Some(v) => Some(Queries::Newer(raw.clone(), v)),
            None => None,
        }
    } else if eq_str(kind, "older") {
        match parse_u64(val) {
            Some(v) => Some(Queries::Older(raw.clone(), v)),
            None => None,
        }
    } else {
        None
    }
}

/// Whether a file satisfies a query. A content query asks that the file be
/// classified as text, that its bytes be well-formed UTF-8, and that the
/// decoded text contain the argument.
pub open spec fn spec_match_file(q: QueryV, f: FileV) -> bool {
    match q {
        QueryV::Name(_, s) => str_contains(f.name, s),
        QueryV::Content(_, s) => f.type_ == FileType::Text && vstd::utf8::valid_utf8(f.content)
            && str_contains(vstd::utf8::decode_utf8(f.content), s),
        QueryV::Larger(_, sz) => f.content.len() > sz,
        QueryV::Smaller(_, sz) => f.content.len() < sz,
        QueryV::Newer(_, t) => f.creation_time > t,
        QueryV::Older(_, t) => f.creation_time < t,
    }
}

/// Whether a directory satisfies a query: only its name and creation time
/// can match; content and size queries never do.
pub open spec fn spec_match_dir(q: QueryV, d: DirV) -> bool {
    match q {
        QueryV::Name(_, s) => str_contains(d.name, s),
        QueryV::Content(_, _) => false,
        QueryV::Larger(_, _) => false,
        QueryV::Smaller(_, _) => false,
        QueryV::Newer(_, t) => d.creation_time > t,
        QueryV::Older(_, t) => d.creation_time < t,
    }
}

/// Whether a node satisfies a query, by its kind's rules.
pub open spec fn spec_match_node(q: QueryV, n: NodeV) -> bool {
    match n {
        NodeV::File(f) => spec_match_file(q, f),
        NodeV::Dir(d) => spec_match_dir(q, d),
    }
}

impl Queries {
    /// The raw string this query was parsed from.
    pub fn to_str(&self) -> (r: &str)
        ensures
            r@ == qv_raw(self@),
    {
        match self {
            Queries::Name(raw, _) => raw.as_str(),
            Queries::Content(raw, _) => raw.as_str(),
            Queries::Larger(raw, _) => raw.as_str(),
            Queries::Smaller(raw, _) => raw.as_str(),
            Queries::Newer(raw, _) => raw.as_str(),
            Queries::Older(raw, _) => raw.as_str(),
        }
    }

    /// Whether `file` satisfies this query; see [`spec_match_file`].
    pub fn match_for_file(&self, file: &File) -> (r: bool)
        ensures
            r == spec_match_file(self@, file@),
    {
        match self {
            Queries::Name(_, s) => contains_str(file.get_name(), s.as_str()),
            Queries::Content(_, s) => {
                if *file.get_filetype() == FileType::Text {
                    match bytes_to_text(file.get_content()) {
                        Some(text) => contains_str(text.as_str(), s.as_str()),
                        None => false,
                    }
                } else {
                    false
                }
            },
            Queries::Larger(_, sz) => file.get_content().len() > *sz,
            Queries::Smaller(_, sz) => file.get_content().len() < *sz,
            Queries::Newer(_, t) => file.get_creation_time() > *t,
            Queries::Older(_, t) => file.get_creation_time() < *t,
        }
    }

    /// Whether `dir` satisfies this query; see [`spec_match_dir`].
    pub fn match_for_dir(&self, dir: &Dir) -> (r: bool)
        ensures
            r == spec_match_dir(self@, dir@),
    {
        match self {
            Queries::Name(_, s) => contains_str(dir.get_name(), s.as_str()),
            Queries::Content(_, _) => false,
            Queries::Larger(_, _) => false,
            Queries::Smaller(_, _) => false,
            Queries::Newer(_, t) => dir.get_creation_time() > *t,
            Queries::Older(_, t) => dir.get_creation_time() < *t,
        }
    }

    /// Whether `node` satisfies this query, by its kind's rules.
    pub fn matches(&self, node: &Node) -> (r: bool)
        ensures
            r == spec_match_node(self@, node@),
    {
        match node {
            Node::File(f) => {
                proof {
                    lemma_node_file_view(*f);
                }
                self.match_for_file(f)
            },
            Node::Dir(d) => {
                proof {
                    lemma_node_dir_view(*d);
                }
                self.match_for_dir(d)
            },
        }
    }
}

/// Index of the first query that `n` satisfies, or `-1`.
pub open spec fn first_match(qs: Seq<QueryV>, n: NodeV) -> int
    decreases qs.len(),
{
    if qs.len() == 0 {
        -1
    } else if spec_match_node(qs[0], n) {
        0
    } else {
        let r = first_match(qs.drop_first(), n);
        if r < 0 {
            -1
        } else {
            r + 1
        }
    }
}

pub proof fn lemma_first_match(qs: Seq<QueryV>, n: NodeV)
    ensures
        -1 <= first_match(qs, n) < qs.len(),
        first_match(qs, n) >= 0 ==> spec_match_node(qs[first_match(qs, n)], n),
        first_match(qs, n) >= 0 ==> forall|j: int|
            0 <= j < first_match(qs, n) ==> !spec_match_node(#[trigger] qs[j], n),
        first_match(qs, n) < 0 ==> forall|j: int|
            0 <= j < qs.len() ==> !spec_match_node(#[trigger] qs[j], n),
    decreases qs.len(),
{
    if qs.len() > 0 && !spec_match_node(qs[0], n) {
        lemma_first_match(qs.drop_first(), n);
        let r = first_match(qs, n);
        if r >= 0 {
            assert forall|j: int| 0 <= j < r implies !spec_match_node(#[trigger] qs[j], n) by {
                if j > 0 {
                    assert(qs.drop_first()[j - 1] == qs[j]);
                }
            }
        } else {
            assert forall|j: int| 0 <= j < qs.len() implies !spec_match_node(
                #[trigger] qs[j],
                n,
            ) by {
                if j > 0 {
                    assert(qs.drop_first()[j - 1] == qs[j]);
                }
            }
        }
    }
}

/// Names of the files a depth-first search records under `n`: each file
/// satisfying some query, in discovery order. Directory nodes themselves
/// are never recorded; the search only descends through them.
pub open spec fn search_names(n: NodeV, qs: Seq<QueryV>) -> Seq<Seq<char>>
    decreases n,
{
    match n {
        NodeV::File(f) => if first_match(qs, n) >= 0 {
            seq![f.name]
        } else {
            Seq::empty()
        },
        NodeV::Dir(d) => search_names_list(d.children, qs),
    }
}

/// Names the search records across a list of sibling subtrees, in order.
pub open spec fn search_names_list(children: Seq<NodeV>, qs: Seq<QueryV>) -> Seq<Seq<char>>
    decreases children,
{
    if children.len() == 0 {
        Seq::empty()
    } else {
        search_names(children[0], qs) + search_names_list(
            children.subrange(1, children.len() as int),
            qs,
        )
    }
}

/// Raw strings of the first query each recorded file satisfies, in
/// discovery order, duplicates kept.
pub open spec fn search_raws(n: NodeV, qs: Seq<QueryV>) -> Seq<Seq<char>>
    decreases n,
{
    match n {
        NodeV::File(_) => if first_match(qs, n) >= 0 {
            seq![qv_raw(qs[first_match(qs, n)])]
        } else {
            Seq::empty()
        },
        NodeV::Dir(d) => search_raws_list(d.children, qs),
    }
}

/// Raw matched-query strings across a list of sibling subtrees.
pub open spec fn search_raws_list(children: Seq<NodeV>, qs: Seq<QueryV>) -> Seq<Seq<char>>
    decreases children,
{
    if children.len() == 0 {
        Seq::empty()
    } else {
        search_raws(children[0], qs) + search_raws_list(
            children.subrange(1, children.len() as int),
            qs,
        )
    }
}

pub proof fn lemma_search_list_snoc(s: Seq<NodeV>, x: NodeV, qs: Seq<QueryV>)
    ensures
        search_names_list(s.push(x), qs) == search_names_list(s, qs) + search_names(x, qs),
        search_raws_list(s.push(x), qs) == search_raws_list(s, qs) + search_raws(x, qs),
    decreases s.len(),
{
    let p = s.push(x);
    if s.len() == 0 {
        assert(p.subrange(1, p.len() as int) =~= Seq::<NodeV>::empty());
        assert(p[0] == x);
        assert(search_names_list(Seq::<NodeV>::empty(), qs) == Seq::<Seq<char>>::empty());
        assert(search_raws_list(Seq::<NodeV>::empty(), qs) == Seq::<Seq<char>>::empty());
        assert(search_names_list(p, qs) == search_names(x, qs) + Seq::<Seq<char>>::empty());
        assert(search_raws_list(p, qs) == search_raws(x, qs) + Seq::<Seq<char>>::empty());
        assert(search_names_list(p, qs) =~= search_names_list(s, qs) + search_names(x, qs));
        assert(search_raws_list(p, qs) =~= search_raws_list(s, qs) + search_raws(x, qs));
    } else {
        let st = s.subrange(1, s.len() as int);
        assert(p.subrange(1, p.len() as int) =~= st.push(x));
        lemma_search_list_snoc(st, x, qs);
        assert(p[0] == s[0]);
        assert(search_names_list(p, qs) =~= search_names_list(s, qs) + search_names(x, qs));
        assert(search_raws_list(p, qs) =~= search_raws_list(s, qs) + search_raws(x, qs));
    }
}

/// True when the strings of `s` are strictly increasing: sorted, with no
/// duplicate.
pub open spec fn strictly_sorted(s: Seq<Seq<char>>) -> bool {
    forall|i: int, j: int| 0 <= i < j < s.len() ==> str_lt(s[i], s[j])
}

/// Result of a search: the distinct raw strings of the queries that
/// matched, sorted, and the full names of the matching files in discovery
/// order.
pub struct MatchResult {
    queries: Vec<String>,
    nodes: Vec<String>,
}

proof fn lemma_vec_string_deep(v: Vec<String>)
    ensures
        v.deep_view().len() == v@.len(),
        forall|i: int| 0 <= i < v@.len() ==> v.deep_view()[i] == (#[trigger] v@[i])@,
{
}

pub proof fn lemma_concat_to_set(a: Seq<Seq<char>>, b: Seq<Seq<char>>)
    ensures
        (a + b).to_set() == a.to_set() + b.to_set(),
{
    let c = a + b;
    assert forall|x: Seq<char>| c.to_set().contains(x) implies (a.to_set() + b.to_set()).contains(
        x,
    ) by {
        let i = choose|i: int| 0 <= i < c.len() && c[i] == x;
        if i < a.len() {
            assert(a[i] == x);
        } else {
            assert(b[i - a.len()] == x);
        }
    }
    assert forall|x: Seq<char>| (a.to_set() + b.to_set()).contains(x) implies c.to_set().contains(
        x,
    ) by {
        if a.to_set().contains(x) {
            let i = choose|i: int| 0 <= i < a.len() && a[i] == x;
            assert(c[i] == x);
        } else {
            let i = choose|i: int| 0 <= i < b.len() && b[i] == x;
            assert(c[a.len() + i] == x);
        }
    }
    assert((a + b).to_set() =~= a.to_set() + b.to_set());
}

pub proof fn lemma_push_to_set(s: Seq<Seq<char>>, x: Seq<char>)
    ensures
        s.push(x).to_set() == s.to_set().insert(x),
{
    let p = s.push(x);
    assert forall|y: Seq<char>| p.to_set().contains(y) implies s.to_set().insert(x).contains(
        y,
    ) by {
        let i = choose|i: int| 0 <= i < p.len() && p[i] == y;
        if i < s.len() {
            assert(s[i] == y);
        }
    }
    assert forall|y: Seq<char>| s.to_set().insert(x).contains(y) implies p.to_set().contains(
        y,
    ) by {
        if y == x {
            assert(p[s.len() as int] == y);
        } else {
            let i = choose|i: int| 0 <= i < s.len() && s[i] == y;
            assert(p[i] == y);
        }
    }
    assert(p.to_set() =~= s.to_set().insert(x));
}

proof fn lemma_insert_to_set(s: Seq<Seq<char>>, k: int, x: Seq<char>)
    requires
        0 <= k <= s.len(),
    ensures
        s.insert(k, x).to_set() == s.to_set().insert(x),
{
    s.insert_ensures(k, x);
    let p = s.insert(k, x);
    assert forall|y: Seq<char>| p.to_set().contains(y) implies s.to_set().insert(x).contains(
        y,
    ) by {
        let i = choose|i: int| 0 <= i < p.len() && p[i] == y;
        if i < k {
            assert(s[i] == y);
        } else if i > k {
            assert(s[i - 1] == y);
        }
    }
    assert forall|y: Seq<char>| s.to_set().insert(x).contains(y) implies p.to_set().contains(
        y,
    ) by {
        if y == x {
            assert(p[k] == y);
        } else {
            let i = choose|i: int| 0 <= i < s.len() && s[i] == y;
            if i < k {
                assert(p[i] == y);
            } else {
                assert(p[i + 1] == y);
            }
        }
    }
    assert(p.to_set() =~= s.to_set().insert(x));
}

/// Position before the first entry not below `s`, in a strictly sorted
/// vector.
fn find_pos(v: &Vec<String>, s: &String) -> (k: usize)
    requires
        strictly_sorted(v.deep_view()),
    ensures
        k <= v@.len(),
        forall|j: int| 0 <= j < k ==> str_lt((#[trigger] v@[j])@, s@),
        k < v@.len() ==> !str_lt(v@[k as int]@, s@),
{
    proof {
        lemma_vec_string_deep(*v);
    }
    let n = v.len();
    let mut k: usize = 0;
    while k < n
        invariant
            k <= n,
            n == v@.len(),
            forall|j: int| 0 <= j < k ==> str_lt((#[trigger] v@[j])@, s@),
        decreases n - k,
    {
        if !lt_str(v[k].as_str(), s.as_str()) {
            return k;
        }
        k = k + 1;
    }
    k
}

/// Puts `s` into its place in a strictly sorted vector, unless an equal
/// string is already there.
#[verifier::rlimit(50)]
fn insert_sorted_unique(v: &mut Vec<String>, s: String)
    requires
        strictly_sorted(old(v).deep_view()),
    ensures
        strictly_sorted(final(v).deep_view()),
        final(v).deep_view().to_set() == old(v).deep_view().to_set().insert(s@),
{
    proof {
        lemma_vec_string_deep(*v);
    }
    let k = find_pos(v, &s);
    let ghost dv = v.deep_view();
    if k < v.len() {
        if eq_str(v[k].as_str(), s.as_str()) {
            proof {
                assert(dv[k as int] == s@);
                assert(dv.to_set().contains(s@));
                assert(dv.to_set() =~= dv.to_set().insert(s@));
            }
            return ;
        }
    }
    let ghost sv = s@;
    v.insert(k, s);
    proof {
        lemma_vec_string_deep(*v);
        let ki = k as int;
        assert(v.deep_view() =~= dv.insert(ki, sv)) by {
            dv.insert_ensures(ki, sv);
            old(v)@.insert_ensures(ki, s);
        };
        lemma_insert_to_set(dv, ki, sv);
        dv.insert_ensures(ki, sv);
        let nv = dv.insert(ki, sv);
        assert forall|i: int, j: int| 0 <= i < j < nv.len() implies str_lt(nv[i], nv[j]) by {
            let a = nv[i];
            let b = nv[j];
            if i == ki {
                let m = j - 1;
                assert(b == dv[m]);
                if m > ki {
                    assert(str_lt(dv[ki], dv[m]));
                    if str_lt(b, sv) {
                        lemma_str_lt_transitive(dv[ki], b, sv, 0);
                    }
                    if b == sv {
                        assert(str_lt(dv[ki], sv));
                    }
                }
                assert(!str_lt(b, sv));
                assert(b != sv);
                if !str_lt(sv, b) {
                    lemma_str_lt_connected(sv, b);
                }
            } else if j == ki {
                assert(a == dv[i]);
                assert(str_lt(a, sv));
            } else {
                let ai = if i < ki {
                    i
                } else {
                    i - 1
                };
                let bj = if j < ki {
                    j
                } else {
                    j - 1
                };
                assert(a == dv[ai]);
                assert(b == dv[bj]);
                if ai == bj {
                    assert(i < ki && j > ki && j - 1 == i);
                    assert(str_lt(dv[i], sv));
                    assert(!str_lt(dv[i], sv));
                } else {
                    assert(ai < bj);
                    assert(str_lt(a, b));
                }
            }
        }
    }
}

impl MatchResult {
    /// The distinct matched raw query strings, sorted.
    pub closed spec fn queries_view(&self) -> Seq<Seq<char>> {
        self.queries.deep_view()
    }

    /// The names of the matched files, in discovery order.
    pub closed spec fn nodes_view(&self) -> Seq<Seq<char>> {
        self.nodes.deep_view()
    }

    pub fn get_queries(&self) -> (r: &Vec<String>)
        ensures
            r.deep_view() == self.queries_view(),
    {
        &self.queries
    }

    pub fn get_nodes(&self) -> (r: &Vec<String>)
        ensures
            r.deep_view() == self.nodes_view(),
    {
        &self.nodes
    }

    /// Records one matched file: the raw string of the query it satisfied
    /// and its name.
    pub fn push_match(&mut self, raw: String, name: String)
        ensures
            final(self).queries_view() == old(self).queries_view().push(raw@),
            final(self).nodes_view() == old(self).nodes_view().push(name@),
    {
        proof {
            lemma_vec_string_deep(self.queries);
            lemma_vec_string_deep(self.nodes);
        }
        self.queries.push(raw);
        self.nodes.push(name);
        proof {
            lemma_vec_string_deep(self.queries);
            lemma_vec_string_deep(self.nodes);
            assert(self.queries.deep_view() =~= old(self).queries.deep_view().push(
                self.queries@[old(self).queries@.len() as int]@,
            ));
            assert(self.nodes.deep_view() =~= old(self).nodes.deep_view().push(
                self.nodes@[old(self).nodes@.len() as int]@,
            ));
        }
    }

    /// Sorts the recorded query strings and drops duplicates, leaving the
    /// set of them unchanged.
    pub fn normalize_queries(&mut self)
        ensures
            final(self).nodes_view() == old(self).nodes_view(),
            strictly_sorted(final(self).queries_view()),
            final(self).queries_view().to_set() == old(self).queries_view().to_set(),
    {
        proof {
            lemma_vec_string_deep(self.queries);
        }
        let mut sorted: Vec<String> = Vec::new();
        proof {
            assert(sorted.deep_view() =~= Seq::<Seq<char>>::empty());
            assert(sorted.deep_view().to_set() =~= self.queries.deep_view().take(0).to_set());
        }
        let n = self.queries.len();
        let mut i: usize = 0;
        while i < n
            invariant
                i <= n,
                n == self.queries@.len(),
                *self == *old(self),
                strictly_sorted(sorted.deep_view()),
                sorted.deep_view().to_set() == self.queries.deep_view().take(i as int).to_set(),
            decreases n - i,
        {
            let s = self.queries[i].clone();
            proof {
                lemma_vec_string_deep(self.queries);
                assert(s@ == self.queries.deep_view()[i as int]);
            }
            insert_sorted_unique(&mut sorted, s);
            proof {
                let dq = self.queries.deep_view();
                assert(dq.take(i + 1) =~= dq.take(i as int).push(dq[i as int]));
                lemma_push_to_set(dq.take(i as int), dq[i as int]);
            }
            i = i + 1;
        }
        proof {
            assert(self.queries.deep_view().take(n as int) =~= self.queries.deep_view());
        }
        self.queries = sorted;
    }
}

impl Default for MatchResult {
    fn default() -> (r: Self)
        ensures
            r.queries_view() == Seq::<Seq<char>>::empty(),
            r.nodes_view() == Seq::<Seq<char>>::empty(),
    {
        let r = MatchResult { queries: Vec::new(), nodes: Vec::new() };
        proof {
            assert(r.queries_view() =~= Seq::<Seq<char>>::empty());
            assert(r.nodes_view() =~= Seq::<Seq<char>>::empty());
        }
        r
    }
}


/// The active queries a raw query list yields: each string parsed, the
/// malformed ones silently dropped.
pub open spec fn active_queries(raws: Seq<Seq<char>>) -> Seq<QueryV>
    decreases raws.len(),
{
    if raws.len() == 0 {
        Seq::empty()
    } else {
        active_queries(raws.drop_last()) + (match spec_parse_query(raws.last()) {
            Some(q) => seq![q],
            None => Seq::<QueryV>::empty(),
        })
    }
}

/// What `mk_dir` makes of the root `d`: a root with no children is replaced
/// by a fresh directory named `path` stamped `now`; any other root resolves
/// `path` through the tree.
pub open spec fn fs_mk_dir(d: DirV, path: Seq<char>, now: u64) -> Result<DirV, CustomError> {
    if d.children.len() == 0 {
        Ok(DirV { name: path, creation_time: now, children: Seq::empty() })
    } else {
        spec_mk_dir(d, path, now)
    }
}

/// What `rm_dir` makes of the root `d`: removal from an empty file system
/// fails outright.
pub open spec fn fs_rm_dir(d: DirV, path: Seq<char>) -> Result<DirV, CustomError> {
    if d.children.len() == 0 {
        Err(CustomError::FileOrDirNameNotFound)
    } else {
        spec_rm_dir(d, path)
    }
}

/// What `rm_file` makes of the root `d`: removal from an empty file system
/// fails outright.
pub open spec fn fs_rm_file(d: DirV, path: Seq<char>) -> Result<DirV, CustomError> {
    if d.children.len() == 0 {
        Err(CustomError::FileOrDirNameNotFound)
    } else {
        spec_rm_file(d, path)
    }
}

/// What `get_file` finds under the root `d`: nothing in an empty file
/// system.
pub open spec fn fs_get_file(d: DirV, path: Seq<char>) -> Option<FileV> {
    if d.children.len() == 0 {
        None
    } else {
        spec_get_file(d, path)
    }
}

/// The file system: a single root directory and the public operations on
/// it.
pub struct FileSystem {
    root: Dir,
}

impl View for FileSystem {
    type V = DirV;

    closed spec fn view(&self) -> DirV {
        self.root@
    }
}

impl FileSystem {
    /// An empty file system: a nameless root with no children.
    pub fn new() -> (fs: FileSystem)
        ensures
            fs@ == (DirV {
                name: Seq::<char>::empty(),
                creation_time: 0u64,
                children: Seq::<NodeV>::empty(),
            }),
    {
        FileSystem { root: Dir::default() }
    }

    /// A file system whose whole tree is `root`: how a snapshot imported
    /// from outside enters the library.
    pub fn from_dir(root: Dir) -> (fs: FileSystem)
        ensures
            fs@ == root@,
    {
        FileSystem { root }
    }

    pub fn get_root(&self) -> (r: &Dir)
        ensures
            r@ == self@,
    {
        &self.root
    }

    /// Creates a directory at `path`, stamped with the clock\'s current
    /// reading; see [`fs_mk_dir`]. The clock\'s reading is not fixed by the
    /// contract, so the new tree is stated for some stamp; a clock failure
    /// surfaces as `SystemTimeError` and leaves the tree unchanged.
    pub fn mk_dir(&mut self, path: &str) -> (r: Result<(), CustomError>)
        ensures
            match r {
                Ok(_) => exists|t: u64|
                    fs_mk_dir(old(self)@, path@, t) == Ok::<DirV, CustomError>(final(self)@),
                Err(e) => final(self)@ == old(self)@ && (e is SystemTimeError || exists|t: u64|
                    fs_mk_dir(old(self)@, path@, t) == Err::<DirV, CustomError>(e)),
            },
    {
        let now = std::time::SystemTime::now();
        let secs = match timestamp_to_u64(now) {
            Ok(s) => s,
            Err(e) => {
                return Err(CustomError::SystemTimeError(e));
            },
        };
        if self.root.is_empty() {
            self.root = Dir::new_from_dir(path, secs);
            proof {
                assert(fs_mk_dir(old(self)@, path@, secs) == Ok::<DirV, CustomError>(self@));
            }
            Ok(())
        } else {
            self.root.mk_dir(path, secs)
        }
    }

    /// Removes the empty directory at `path`; see [`fs_rm_dir`].
    pub fn rm_dir(&mut self, path: &str) -> (r: Result<(), CustomError>)
        ensures
            match r {
                Ok(_) => fs_rm_dir(old(self)@, path@) == Ok::<DirV, CustomError>(final(self)@),
                Err(e) => fs_rm_dir(old(self)@, path@) == Err::<DirV, CustomError>(e)
                    && final(self)@ == old(self)@,
            },
    {
        if self.root.is_empty() {
            return Err(CustomError::FileOrDirNameNotFound);
        }
        self.root.rm_dir(path)
    }

    /// Creates a file at `path` copying `file`; see
    /// [`spec_new_file`].
    pub fn new_file(&mut self, path: &str, file: File) -> (r: Result<(), CustomError>)
        ensures
            match r {
                Ok(_) => spec_new_file(old(self)@, path@, file@) == Ok::<DirV, CustomError>(
                    final(self)@,
                ),
                Err(e) => spec_new_file(old(self)@, path@, file@) == Err::<DirV, CustomError>(e)
                    && final(self)@ == old(self)@,
            },
    {
        self.root.new_file(path, &file)
    }

    /// Removes the file at `path`; see [`fs_rm_file`].
    pub fn rm_file(&mut self, path: &str) -> (r: Result<(), CustomError>)
        ensures
            match r {
                Ok(_) => fs_rm_file(old(self)@, path@) == Ok::<DirV, CustomError>(final(self)@),
                Err(e) => fs_rm_file(old(self)@, path@) == Err::<DirV, CustomError>(e)
                    && final(self)@ == old(self)@,
            },
    {
        if self.root.is_empty() {
            return Err(CustomError::FileOrDirNameNotFound);
        }
        self.root.rm_file(path)
    }

    /// Finds the file at `path`, as a mutable handle; see [`fs_get_file`]
    /// for what is found and [`spec_set_file`] for how an edit through the
    /// handle lands in the tree.
    pub fn get_file(&mut self, path: &str) -> (r: Option<&mut File>)
        ensures
            match r {
                Some(f) => fs_get_file(old(self)@, path@) == Some((*f)@) && final(self)@
                    =~= spec_set_file(old(self)@, path@, (*final(f))@),
                None => fs_get_file(old(self)@, path@) is None && final(self)@ =~= old(self)@,
            },
    {
        if self.root.is_empty() {
            return None;
        }
        self.root.get_file(path)
    }

    /// Parses the raw query strings, silently dropping the malformed ones,
    /// and searches the whole tree with the queries that remain.
    pub fn search(&self, queries: &Vec<String>) -> (r: MatchResult)
        ensures
            r.nodes_view() == search_names_list(
                self@.children,
                active_queries(queries.deep_view()),
            ),
            strictly_sorted(r.queries_view()),
            r.queries_view().to_set() == search_raws_list(
                self@.children,
                active_queries(queries.deep_view()),
            ).to_set(),
    {
        let ghost raws = queries.deep_view();
        let mut active: Vec<Queries> = Vec::new();
        proof {
            lemma_vec_string_deep(*queries);
            assert(raws.take(0) =~= Seq::<Seq<char>>::empty());
            assert(queries_view(active@) =~= active_queries(raws.take(0)));
        }
        let n = queries.len();
        let mut i: usize = 0;
        while i < n
            invariant
                i <= n,
                n == queries@.len(),
                raws == queries.deep_view(),
                queries_view(active@) == active_queries(raws.take(i as int)),
            decreases n - i,
        {
            let q = &queries[i];
            proof {
                lemma_vec_string_deep(*queries);
                assert(q@ == raws[i as int]);
            }
            let ghost prev = active@;
            match parse_query(q) {
                Some(pq) => {
                    active.push(pq);
                },
                None => {},
            }
            proof {
                assert(raws.take(i + 1).drop_last() =~= raws.take(i as int));
                assert(raws.take(i + 1).last() == raws[i as int]);
                match spec_parse_query(raws[i as int]) {
                    Some(qq) => {
                        assert(active@ == prev.push(active@.last()));
                        assert(active@.last()@ == qq);
                        assert(queries_view(active@) =~= queries_view(prev).push(qq));
                        assert(active_queries(raws.take(i + 1)) =~= active_queries(
                            raws.take(i as int),
                        ).push(qq));
                    },
                    None => {
                        assert(active_queries(raws.take(i + 1)) =~= active_queries(
                            raws.take(i as int),
                        ));
                    },
                }
                assert(queries_view(active@) =~= active_queries(raws.take(i + 1)));
            }
            i = i + 1;
        }
        proof {
            assert(raws.take(n as int) =~= raws);
        }
        let res = self.root.search(&active, MatchResult::default());
        proof {
            assert(res.nodes_view() =~= search_names_list(self@.children, queries_view(active@)));
            assert(Seq::<Seq<char>>::empty().to_set() =~= Set::<Seq<char>>::empty());
            assert(res.queries_view().to_set() =~= search_raws_list(
                self@.children,
                queries_view(active@),
            ).to_set());
        }
        res
    }
}

} // verus!
