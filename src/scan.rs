//! The rules of one scan: which files count, which node a file is, and which
//! edges its lines give.

use vstd::multiset::Multiset;
use vstd::prelude::*;

use crate::extract::{
    capture_groups, captures_of, compile_optional_regex, compile_pattern, extract_then_replace,
    group_count, group_texts, is_match, make_empty_string, option_pattern, option_text,
    regex_compiles, regex_is_match, resolved, Pattern,
};
use crate::pair_store::{added, PairStore};

verus! {

/// The identifiers of a list of strings.
pub open spec fn texts(v: Seq<String>) -> Seq<Seq<char>> {
    v.map_values(|s: String| s@)
}

/// The group whose text names a node: the first capture group where the
/// pattern has one, else the whole match.
pub open spec fn main_group(pattern: Seq<char>) -> nat {
    if capture_groups(pattern) > 1 {
        1
    } else {
        0
    }
}

/// The identifiers made from the captures that took part, in match order.
pub open spec fn resolve_captures(
    caps: Seq<Option<Seq<char>>>,
    replace: Option<Seq<char>>,
    rep: Seq<char>,
    disable_hash_removal: bool,
) -> Seq<Seq<char>>
    decreases caps.len(),
{
    if caps.len() == 0 {
        Seq::empty()
    } else {
        let prev = resolve_captures(caps.drop_last(), replace, rep, disable_hash_removal);
        match caps.last() {
            Some(t) => prev.push(resolved(t, replace, rep, disable_hash_removal)),
            None => prev,
        }
    }
}

/// The contents of a store after inserting each of `ps` in turn.
pub open spec fn add_all(
    m: Multiset<(Seq<char>, Seq<char>)>,
    unique: bool,
    ps: Seq<(Seq<char>, Seq<char>)>,
) -> Multiset<(Seq<char>, Seq<char>)>
    decreases ps.len(),
{
    if ps.len() == 0 {
        m
    } else {
        added(add_all(m, unique, ps.drop_last()), unique, ps.last())
    }
}

/// The edges from `node` to each of `targets`.
pub open spec fn line_pairs(node: Seq<char>, targets: Seq<Seq<char>>) -> Seq<(Seq<char>, Seq<char>)> {
    targets.map_values(|t: Seq<char>| (node, t))
}

/// The group of a pattern whose text names a node.
fn main_capture_index(p: &Pattern) -> (r: usize)
    ensures
        r as nat == main_group(p@),
{
    if group_count(p) > 1 {
        1
    } else {
        0
    }
}

/// A pattern that finds identifiers, with an optional rewrite of each.
pub struct Extractor {
    pub find: Pattern,
    pub replace: Option<Pattern>,
    pub replace_string: String,
}

impl Extractor {
    pub open spec fn replace_view(&self) -> Option<Seq<char>> {
        match self.replace {
            Some(p) => Some(p@),
            None => None,
        }
    }

    /// The identifiers that `text` gives, in match order.
    pub open spec fn ids(&self, text: Seq<char>, disable_hash_removal: bool) -> Seq<Seq<char>> {
        resolve_captures(
            group_texts(self.find@, text, main_group(self.find@)),
            self.replace_view(),
            self.replace_string@,
            disable_hash_removal,
        )
    }

    /// Every identifier found in `text`: for each match the text of its main
    /// group, resolved; a match whose main group took no part gives none.
    pub fn identifiers(&self, text: &str, disable_hash_removal: bool) -> (r: Vec<String>)
        ensures
            texts(r@) == self.ids(text@, disable_hash_removal),
    {
        let group = main_capture_index(&self.find);
        let caps = captures_of(&self.find, text, group);
        let ghost g = group_texts(self.find@, text@, group as nat);
        let replace = self.replace.as_ref();
        assert(option_pattern(replace) == self.replace_view());
        let mut out: Vec<String> = Vec::new();
        let mut i: usize = 0;
        assert(g.take(0) =~= Seq::<Option<Seq<char>>>::empty());
        assert(texts(out@) =~= Seq::empty());
        while i < caps.len()
            invariant
                i <= caps@.len() == g.len(),
                g == group_texts(self.find@, text@, group as nat),
                group as nat == main_group(self.find@),
                option_pattern(replace) == self.replace_view(),
                forall|j: int| 0 <= j < caps@.len() ==> option_text(#[trigger] caps@[j]) == g[j],
                texts(out@) == resolve_captures(
                    g.take(i as int),
                    self.replace_view(),
                    self.replace_string@,
                    disable_hash_removal,
                ),
            decreases caps@.len() - i,
        {
            assert(option_text(caps@[i as int]) == g[i as int]);
            assert(g.take(i + 1).drop_last() =~= g.take(i as int));
            let ghost before = out@;
            match &caps[i] {
                Some(t) => {
                    let id = extract_then_replace(
                        t.as_str(),
                        replace,
                        self.replace_string.as_str(),
                        disable_hash_removal,
                    );
                    out.push(id);
                    assert(texts(out@) =~= texts(before).push(id@));
                },
                None => {},
            }
            i = i + 1;
        }
        assert(g.take(i as int) =~= g);
        out
    }
}

/// The compiled configuration of one scan.
pub struct Rules {
    /// Finds the target identifiers in each line of a file.
    pub extract: Extractor,
    /// Finds a file's own identifiers in its path; without it a file is
    /// named by its stem.
    pub path: Option<Extractor>,
    /// File names that must match for a file to be scanned.
    pub file_filter: Option<Pattern>,
    /// Keep every edge occurrence rather than each distinct edge once.
    pub multiple: bool,
    /// Keep `#` in identifiers.
    pub disable_hash_removal: bool,
}

/// The identifier of a file that has no usable stem.
pub const UNKNOWN_FILE_NODE: &'static str = "file_tgf_unknown";

impl Rules {
    /// Compiles the patterns of a scan. It fails exactly where one of the
    /// patterns given does not compile.
    #[allow(clippy::too_many_arguments)]
    pub fn compile(
        extract_regex: String,
        extract_replace_regex: Option<String>,
        extract_replace_string: Option<String>,
        filename_regex: Option<String>,
        path_regex: Option<String>,
        path_replace_regex: Option<String>,
        path_replace_string: Option<String>,
        multiple: bool,
        disable_hash_removal: bool,
    ) -> (r: Result<Rules, regex::Error>)
        ensures
            r is Ok <==> {
                &&& regex_compiles(extract_regex@)
                &&& (extract_replace_regex matches Some(p) ==> regex_compiles(p@))
                &&& (filename_regex matches Some(p) ==> regex_compiles(p@))
                &&& (path_regex matches Some(p) ==> regex_compiles(p@))
                &&& (path_replace_regex matches Some(p) ==> regex_compiles(p@))
            },
            r matches Ok(rules) ==> {
                &&& rules.extract.find@ == extract_regex@
                &&& rules.extract.replace_view() == option_text(extract_replace_regex)
                &&& rules.extract.replace_string@ == (match extract_replace_string {
                    Some(s) => s@,
                    None => Seq::empty(),
                })
                &&& (match rules.file_filter {
                    Some(f) => Some(f@),
                    None => None,
                }) == option_text(filename_regex)
                &&& (match rules.path {
                    Some(p) => {
                        &&& path_regex matches Some(s) && p.find@ == s@
                        &&& p.replace_view() == option_text(path_replace_regex)
                        &&& p.replace_string@ == (match path_replace_string {
                            Some(s) => s@,
                            None => Seq::empty(),
                        })
                    },
                    None => path_regex is None,
                })
                &&& rules.multiple == multiple
                &&& rules.disable_hash_removal == disable_hash_removal
            },
    {
        let find = compile_pattern(extract_regex.as_str())?;
        let extract_replace = compile_optional_regex(extract_replace_regex)?;
        let extract_replace_string = match extract_replace_string {
            Some(s) => s,
            None => make_empty_string(),
        };
        let file_filter = compile_optional_regex(filename_regex)?;
        let path_find = compile_optional_regex(path_regex)?;
        let path_replace = compile_optional_regex(path_replace_regex)?;
        let path_replace_string = match path_replace_string {
            Some(s) => s,
            None => make_empty_string(),
        };
        let path = match path_find {
            Some(find) => Some(
                Extractor { find, replace: path_replace, replace_string: path_replace_string },
            ),
            None => None,
        };
        Ok(
            Rules {
                extract: Extractor {
                    find,
                    replace: extract_replace,
                    replace_string: extract_replace_string,
                },
                path,
                file_filter,
                multiple,
                disable_hash_removal,
            },
        )
    }

    /// An empty edge store of the kind these rules ask for.
    pub fn new_store(&self) -> (r: PairStore)
        ensures
            r.wf(),
            r.is_unique() == !self.multiple,
            r@ == Multiset::<(Seq<char>, Seq<char>)>::empty(),
    {
        if self.multiple {
            PairStore::new_multiple()
        } else {
            PairStore::new()
        }
    }

    /// Whether a file whose name is `file_name` is scanned: where a filter is
    /// set and the name is known, the name must match it.
    pub fn includes(&self, file_name: Option<&str>) -> (r: bool)
        ensures
            r == match (&self.file_filter, file_name) {
                (Some(f), Some(n)) => regex_is_match(f@, n@),
                _ => true,
            },
    {
        match (&self.file_filter, file_name) {
            (Some(f), Some(n)) => is_match(f, n),
            _ => true,
        }
    }

    /// The identifiers a file's own path gives it.
    pub open spec fn file_ids(&self, path: Option<Seq<char>>, stem: Option<Seq<char>>) -> Seq<
        Seq<char>,
    > {
        match self.path {
            Some(e) => match path {
                Some(p) => e.ids(p, self.disable_hash_removal),
                None => Seq::empty(),
            },
            None => match stem {
                Some(s) => seq![s],
                None => seq![UNKNOWN_FILE_NODE@],
            },
        }
    }

    /// The nodes that stand for a file: those its path gives where a path
    /// pattern is set (none where the path is not text), else its stem, or
    /// `UNKNOWN_FILE_NODE` where it has none.
    pub fn file_nodes(&self, path: Option<&str>, stem: Option<&str>) -> (r: Vec<String>)
        ensures
            texts(r@) == self.file_ids(
                match path {
                    Some(p) => Some(p@),
                    None => None,
                },
                match stem {
                    Some(s) => Some(s@),
                    None => None,
                },
            ),
    {
        match &self.path {
            Some(e) => match path {
                Some(p) => e.identifiers(p, self.disable_hash_removal),
                None => {
                    let r: Vec<String> = Vec::new();
                    assert(texts(r@) =~= Seq::empty());
                    r
                },
            },
            None => {
                let name = match stem {
                    Some(s) => s.to_owned(),
                    None => UNKNOWN_FILE_NODE.to_owned(),
                };
                let mut r: Vec<String> = Vec::new();
                r.push(name);
                assert(texts(r@) =~= seq![name@]);
                r
            },
        }
    }

    /// The edges from `node` to the targets of each of `lines`, line by line.
    pub open spec fn node_pairs(&self, node: Seq<char>, lines: Seq<Seq<char>>) -> Seq<
        (Seq<char>, Seq<char>),
    >
        decreases lines.len(),
    {
        if lines.len() == 0 {
            Seq::empty()
        } else {
            self.node_pairs(node, lines.drop_last()) + line_pairs(
                node,
                self.extract.ids(lines.last(), self.disable_hash_removal),
            )
        }
    }

    /// The edges a file gives: for each of its nodes in turn, the edges to
    /// the targets of its lines.
    pub open spec fn file_pairs(&self, nodes: Seq<Seq<char>>, lines: Seq<Seq<char>>) -> Seq<
        (Seq<char>, Seq<char>),
    >
        decreases nodes.len(),
    {
        if nodes.len() == 0 {
            Seq::empty()
        } else {
            self.file_pairs(nodes.drop_last(), lines) + self.node_pairs(nodes.last(), lines)
        }
    }

    /// Records the edges of one file, whose nodes are `nodes` and whose text
    /// is `lines`.
    pub fn add_file_edges(&self, store: &mut PairStore, nodes: &Vec<String>, lines: &Vec<String>)
        requires
            old(store).wf(),
        ensures
            final(store).wf(),
            final(store).is_unique() == old(store).is_unique(),
            final(store)@ == add_all(
                old(store)@,
                old(store).is_unique(),
                self.file_pairs(texts(nodes@), texts(lines@)),
            ),
    {
        let ghost m0 = store@;
        let ghost u = store.is_unique();
        let ghost ns = texts(nodes@);
        let ghost ls = texts(lines@);
        let ghost mut done: Seq<(Seq<char>, Seq<char>)> = Seq::empty();
        assert(ns.take(0) =~= Seq::<Seq<char>>::empty());
        let mut a: usize = 0;
        while a < nodes.len()
            invariant
                a <= nodes@.len(),
                ns == texts(nodes@),
                ls == texts(lines@),
                store.wf(),
                store.is_unique() == u,
                done == self.file_pairs(ns.take(a as int), ls),
                store@ == add_all(m0, u, done),
            decreases nodes@.len() - a,
        {
            let node = &nodes[a];
            let ghost base = done;
            assert(ls.take(0) =~= Seq::<Seq<char>>::empty());
            assert(base + self.node_pairs(node@, ls.take(0)) =~= base);
            let mut b: usize = 0;
            while b < lines.len()
                invariant
                    a < nodes@.len(),
                    b <= lines@.len(),
                    node@ == ns[a as int],
                    ns == texts(nodes@),
                    ls == texts(lines@),
                    store.wf(),
                    store.is_unique() == u,
                    base == self.file_pairs(ns.take(a as int), ls),
                    done == base + self.node_pairs(node@, ls.take(b as int)),
                    store@ == add_all(m0, u, done),
                decreases lines@.len() - b,
            {
                let targets = self.extract.identifiers(lines[b].as_str(), self.disable_hash_removal);
                let ghost ts = texts(targets@);
                let ghost mid = done;
                assert(mid + line_pairs(node@, ts.take(0)) =~= mid);
                let mut c: usize = 0;
                while c < targets.len()
                    invariant
                        c <= targets@.len(),
                        ts == texts(targets@),
                        store.wf(),
                        store.is_unique() == u,
                        done == mid + line_pairs(node@, ts.take(c as int)),
                        store@ == add_all(m0, u, done),
                    decreases targets@.len() - c,
                {
                    let ghost p = (node@, targets@[c as int]@);
                    store.add_pair(node.clone(), targets[c].clone());
                    proof {
                        let d2 = done.push(p);
                        assert(d2.drop_last() =~= done);
                        assert(mid + line_pairs(node@, ts.take(c + 1)) =~= d2);
                        done = d2;
                    }
                    c = c + 1;
                }
                proof {
                    assert(ts.take(c as int) =~= ts);
                    assert(ls.take(b + 1).drop_last() =~= ls.take(b as int));
                    assert(ls.take(b + 1).last() == lines@[b as int]@);
                    assert(done =~= base + self.node_pairs(node@, ls.take(b + 1)));
                }
                b = b + 1;
            }
            proof {
                assert(ls.take(b as int) =~= ls);
                assert(ns.take(a + 1).drop_last() =~= ns.take(a as int));
                assert(ns.take(a + 1).last() == ns[a as int]);
            }
            a = a + 1;
        }
        assert(ns.take(a as int) =~= ns);
    }
}

} // verus!
