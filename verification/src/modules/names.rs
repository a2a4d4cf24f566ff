//! The project-wide index of exported declarations, import aliases, and
//! the rules by which a name written in a module resolves to a fully
//! qualified one.

use vstd::prelude::*;
use super::{
    builtin_type, builtin_type_names, lemma_builtin_type_names, declaration_label, first_index_from, is_builtin_type, lemma_first_index_from, lemma_text_lt_transitive,
    lemma_text_order, same_text, text_less, text_lt, DeclarationKind, ModuleId,
};
use crate::syntax::{Diagnostic, Span, UseDecl, UseKind};
use crate::syntax::ast::{join_segments, joined_segments};
use super::{DependencyEdge, DependencyKind};
use crate::text::{chars_of, copy_chars, push_chars, push_str, string_of};

verus! {

broadcast use vstd::std_specs::vec::group_vec_axioms;

/// The source file a declaration was read from.
#[derive(Clone, Copy, Debug, PartialEq, Eq, Structural)]
pub struct SourceId(pub u32);

/// A declaration that a module exports.
#[derive(Debug, PartialEq, Eq)]
pub struct Export {
    pub name: String,
    pub kind: DeclarationKind,
    pub module: ModuleId,
    pub source: SourceId,
    pub span: Span,
}

/// An export as plain values.
pub struct ExportModel {
    pub name: Seq<char>,
    pub kind: DeclarationKind,
    pub module: Seq<char>,
    pub source: SourceId,
    pub span: Span,
}

impl View for Export {
    type V = ExportModel;

    open spec fn view(&self) -> ExportModel {
        ExportModel { name: self.name@, kind: self.kind, module: self.module@, source: self.source, span: self.span }
    }
}

impl Clone for Export {
    fn clone(&self) -> (copy: Self)
        ensures
            copy@ == self@,
    {
        Export {
            name: self.name.clone(),
            kind: self.kind,
            module: self.module.clone(),
            source: self.source,
            span: self.span,
        }
    }
}

/// The exports of one module.
#[derive(Debug, PartialEq, Eq)]
pub struct ModuleInterface {
    pub module: ModuleId,
    pub namespace: String,
    pub exports: Vec<Export>,
    pub interface_hash: String,
}

/// The rank of a declaration kind in key order.
pub open spec fn kind_order(k: DeclarationKind) -> int {
    match k {
        DeclarationKind::Function => 0,
        DeclarationKind::Class => 1,
        DeclarationKind::Interface => 2,
        DeclarationKind::Trait => 3,
    }
}

/// Key order: by kind, then by name.
pub open spec fn key_lt(a: (DeclarationKind, Seq<char>), b: (DeclarationKind, Seq<char>)) -> bool {
    kind_order(a.0) < kind_order(b.0) || (a.0 == b.0 && text_lt(a.1, b.1))
}

pub open spec fn key_of(e: ExportModel) -> (DeclarationKind, Seq<char>) {
    (e.kind, e.name)
}

/// Exports each before the next in key order, so no key twice.
pub open spec fn keys_sorted(es: Seq<ExportModel>) -> bool {
    forall|i: int, j: int| 0 <= i < j < es.len() ==> key_lt(key_of(#[trigger] es[i]), key_of(#[trigger] es[j]))
}

proof fn lemma_key_order(a: (DeclarationKind, Seq<char>), b: (DeclarationKind, Seq<char>), c: (DeclarationKind, Seq<char>))
    ensures
        !key_lt(a, a),
        key_lt(a, b) ==> !key_lt(b, a),
        a != b ==> key_lt(a, b) || key_lt(b, a),
        key_lt(a, b) && key_lt(b, c) ==> key_lt(a, c),
{
    lemma_text_order(a.1, b.1);
    lemma_text_order(b.1, c.1);
    if text_lt(a.1, b.1) && text_lt(b.1, c.1) {
        lemma_text_lt_transitive(a.1, b.1, c.1, 0);
    }
    if a.0 != b.0 {
        assert(kind_order(a.0) != kind_order(b.0));
    }
}

/// The exported declarations of a project, at most one per kind and name.
#[derive(Debug)]
pub struct ExportIndex {
    exports: Vec<Export>,
}

impl View for ExportIndex {
    type V = Seq<ExportModel>;

    closed spec fn view(&self) -> Seq<ExportModel> {
        self.exports@.map_values(|e: Export| e@)
    }
}

/// The export with kind `kind` and name `name`.
pub open spec fn lookup(es: Seq<ExportModel>, kind: DeclarationKind, name: Seq<char>) -> Option<ExportModel> {
    if exists|i: int| 0 <= i < es.len() && key_of(#[trigger] es[i]) == (kind, name) {
        Some(es[choose|i: int| 0 <= i < es.len() && key_of(#[trigger] es[i]) == (kind, name)])
    } else {
        None
    }
}

/// The type named `name`: a class, else an interface, else a trait.
pub open spec fn lookup_type(es: Seq<ExportModel>, name: Seq<char>) -> Option<ExportModel> {
    match lookup(es, DeclarationKind::Class, name) {
        Some(e) => Some(e),
        None => match lookup(es, DeclarationKind::Interface, name) {
            Some(e) => Some(e),
            None => lookup(es, DeclarationKind::Trait, name),
        },
    }
}

impl ExportIndex {
    pub closed spec fn wf(&self) -> bool {
        keys_sorted(self@)
    }

    /// An index without exports.
    pub fn new() -> (index: ExportIndex)
        ensures
            index.wf(),
            index@.len() == 0,
    {
        let index = ExportIndex { exports: Vec::new() };
        assert(index@ =~= Seq::<ExportModel>::empty());
        index
    }

    /// The exports in key order.
    pub fn exports(&self) -> (exports: &[Export])
        ensures
            exports@.map_values(|e: Export| e@) == self@,
    {
        self.exports.as_slice()
    }

    /// The position of the first export whose key is not before `key`.
    fn slot(&self, kind: DeclarationKind, name: &str) -> (k: usize)
        ensures
            k <= self@.len(),
            forall|i: int| 0 <= i < k ==> key_lt(key_of(#[trigger] self@[i]), (kind, name@)),
            k < self@.len() ==> !key_lt(key_of(self@[k as int]), (kind, name@)),
    {
        let key = chars_of(name);
        let rank = kind_rank_of(kind);
        let mut i: usize = 0;
        while i < self.exports.len()
            invariant
                i <= self@.len(),
                key@ == name@,
                rank == kind_order(kind),
                forall|j: int| 0 <= j < i ==> key_lt(key_of(#[trigger] self@[j]), (kind, name@)),
            decreases self.exports.len() - i,
        {
            let e = &self.exports[i];
            assert(self@[i as int] == e@);
            let other_rank = kind_rank_of(e.kind);
            let before = if other_rank != rank {
                other_rank < rank
            } else {
                proof {
                    if e.kind != kind {
                        assert(kind_order(e.kind) != kind_order(kind));
                    }
                }
                let other = chars_of(e.name.as_str());
                text_less(other.as_slice(), key.as_slice())
            };
            if !before {
                return i;
            }
            i = i + 1;
        }
        i
    }

    /// The export with `kind` and `name`, if any.
    pub fn get(&self, kind: DeclarationKind, name: &str) -> (found: Option<&Export>)
        requires
            self.wf(),
        ensures
            match lookup(self@, kind, name@) {
                Some(e) => found matches Some(x) && x@ == e,
                None => found is None,
            },
    {
        let k = self.slot(kind, name);
        if k < self.exports.len() && self.exports[k].kind == kind && same_text(self.exports[k].name.as_str(), name) {
            proof {
                assert(key_of(self@[k as int]) == (kind, name@));
                self.lemma_lookup_at(k as int);
            }
            Some(&self.exports[k])
        } else {
            proof {
                if exists|i: int| 0 <= i < self@.len() && key_of(#[trigger] self@[i]) == (kind, name@) {
                    let i = choose|i: int| 0 <= i < self@.len() && key_of(#[trigger] self@[i]) == (kind, name@);
                    if i < k {
                        lemma_key_order(key_of(self@[i]), (kind, name@), (kind, name@));
                    } else if i > k {
                        assert(key_lt(key_of(self@[k as int]), key_of(self@[i])));
                        lemma_key_order(key_of(self@[k as int]), (kind, name@), (kind, name@));
                    } else {
                        assert(self.exports@[k as int].kind == kind);
                        assert(self.exports@[k as int].name@ == name@);
                    }
                }
            }
            None
        }
    }

    proof fn lemma_lookup_at(&self, k: int)
        requires
            self.wf(),
            0 <= k < self@.len(),
        ensures
            lookup(self@, self@[k].kind, self@[k].name) == Some(self@[k]),
    {
        let key = key_of(self@[k]);
        assert(key_of(self@[k]) == key);
        let i = choose|i: int| 0 <= i < self@.len() && key_of(#[trigger] self@[i]) == key;
        if i < k {
            assert(key_lt(key_of(self@[i]), key_of(self@[k])));
            lemma_key_order(key, key, key);
        } else if i > k {
            assert(key_lt(key_of(self@[k]), key_of(self@[i])));
            lemma_key_order(key, key, key);
        }
    }

    /// The type named `name`: a class, else an interface, else a trait.
    pub fn find_type(&self, name: &str) -> (found: Option<&Export>)
        requires
            self.wf(),
        ensures
            match lookup_type(self@, name@) {
                Some(e) => found matches Some(x) && x@ == e,
                None => found is None,
            },
    {
        match self.get(DeclarationKind::Class, name) {
            Some(e) => Some(e),
            None => match self.get(DeclarationKind::Interface, name) {
                Some(e) => Some(e),
                None => self.get(DeclarationKind::Trait, name),
            },
        }
    }

    /// Adds an export; refused, with the export already there and the new
    /// one, when an export has its kind and name.
    pub fn insert(&mut self, export: Export) -> (added: Result<(), (Export, Export)>)
        requires
            old(self).wf(),
        ensures
            final(self).wf(),
            match lookup(old(self)@, export@.kind, export@.name) {
                Some(previous) => added matches Err((p, e)) && p@ == previous && e@ == export@ && final(self)@ == old(self)@,
                None => added is Ok && lookup(final(self)@, export@.kind, export@.name) == Some(export@)
                    && final(self)@.len() == old(self)@.len() + 1
                    && (forall|k: DeclarationKind, n: Seq<char>| (k, n) != (export@.kind, export@.name) ==> lookup(final(self)@, k, n) == lookup(old(self)@, k, n)),
            },
    {
        let ghost es = self@;
        let ghost key = key_of(export@);
        let k = self.slot(export.kind, export.name.as_str());
        if k < self.exports.len() && self.exports[k].kind == export.kind && same_text(self.exports[k].name.as_str(), export.name.as_str()) {
            proof {
                self.lemma_lookup_at(k as int);
            }
            let previous = self.exports[k].clone();
            return Err((previous, export));
        }
        proof {
            if exists|i: int| 0 <= i < es.len() && key_of(#[trigger] es[i]) == key {
                let i = choose|i: int| 0 <= i < es.len() && key_of(#[trigger] es[i]) == key;
                if i < k {
                    lemma_key_order(key_of(es[i]), key, key);
                } else if i > k {
                    assert(key_lt(key_of(es[k as int]), key_of(es[i])));
                    lemma_key_order(key_of(es[k as int]), key, key);
                } else {
                    assert(self.exports@[k as int].kind == export.kind);
                    assert(self.exports@[k as int].name@ == export.name@);
                }
            }
            if k < es.len() {
                lemma_key_order(key_of(es[k as int]), key, key);
            }
        }
        let ghost model = export@;
        self.exports.insert(k, export);
        let ghost now = self@;
        assert(now =~= es.insert(k as int, model));
        assert forall|i: int, j: int| 0 <= i < j < now.len() implies key_lt(key_of(#[trigger] now[i]), key_of(#[trigger] now[j])) by {
            if j < k {
                assert(key_lt(key_of(es[i]), key_of(es[j])));
            } else if j == k {
            } else if i < k {
                if j - 1 == k {
                    lemma_key_order(key_of(es[i]), key, key_of(es[k as int]));
                } else {
                    assert(key_lt(key_of(es[i]), key_of(es[j - 1])));
                }
            } else if i == k {
                if j - 1 > k {
                    assert(key_lt(key_of(es[k as int]), key_of(es[j - 1])));
                    lemma_key_order(key, key_of(es[k as int]), key_of(es[j - 1]));
                }
            } else {
                assert(key_lt(key_of(es[i - 1]), key_of(es[j - 1])));
            }
        }
        proof {
            self.lemma_lookup_at(k as int);
            assert forall|kk: DeclarationKind, n: Seq<char>| (kk, n) != key implies lookup(now, kk, n) == lookup(es, kk, n) by {
                if exists|i: int| 0 <= i < es.len() && key_of(#[trigger] es[i]) == (kk, n) {
                    let i = choose|i: int| 0 <= i < es.len() && key_of(#[trigger] es[i]) == (kk, n);
                    let i2 = if i < k { i } else { i + 1 };
                    assert(now[i2] == es[i]);
                    self.lemma_lookup_at(i2);
                    assert(lookup(now, kk, n) == Some(es[i]));
                    lemma_lookup_unique(es, i);
                }
                if exists|i: int| 0 <= i < now.len() && key_of(#[trigger] now[i]) == (kk, n) {
                    let i = choose|i: int| 0 <= i < now.len() && key_of(#[trigger] now[i]) == (kk, n);
                    if i < k {
                        assert(es[i] == now[i]);
                    } else if i > k {
                        assert(es[i - 1] == now[i]);
                    }
                }
            }
        }
        Ok(())
    }
}

/// In sorted exports, the one at `i` is what its key looks up.
proof fn lemma_lookup_unique(es: Seq<ExportModel>, i: int)
    requires
        keys_sorted(es),
        0 <= i < es.len(),
    ensures
        lookup(es, es[i].kind, es[i].name) == Some(es[i]),
{
    let key = key_of(es[i]);
    assert(key_of(es[i]) == key);
    let j = choose|j: int| 0 <= j < es.len() && key_of(#[trigger] es[j]) == key;
    if j < i {
        assert(key_lt(key_of(es[j]), key_of(es[i])));
        lemma_key_order(key, key, key);
    } else if j > i {
        assert(key_lt(key_of(es[i]), key_of(es[j])));
        lemma_key_order(key, key, key);
    }
}

fn kind_rank_of(k: DeclarationKind) -> (r: u8)
    ensures
        r == kind_order(k),
{
    match k {
        DeclarationKind::Function => 0,
        DeclarationKind::Class => 1,
        DeclarationKind::Interface => 2,
        DeclarationKind::Trait => 3,
    }
}

/// The exports of the interfaces, in order.
pub open spec fn all_exports(ifaces: Seq<ModuleInterface>) -> Seq<ExportModel>
    decreases ifaces.len(),
{
    if ifaces.len() == 0 {
        Seq::empty()
    } else {
        all_exports(ifaces.drop_last()) + ifaces.last().exports@.map_values(|e: Export| e@)
    }
}

/// The first of `es` with kind `kind` and name `name`.
pub open spec fn first_with(es: Seq<ExportModel>, kind: DeclarationKind, name: Seq<char>) -> Option<ExportModel>
    decreases es.len(),
{
    if es.len() == 0 {
        None
    } else {
        match first_with(es.drop_last(), kind, name) {
            Some(e) => Some(e),
            None => if key_of(es.last()) == (kind, name) {
                Some(es.last())
            } else {
                None
            },
        }
    }
}

/// Each export whose kind and name an earlier export has, paired with
/// that earlier export, in order.
pub open spec fn collisions(es: Seq<ExportModel>) -> Seq<(ExportModel, ExportModel)>
    decreases es.len(),
{
    if es.len() == 0 {
        Seq::empty()
    } else {
        let rest = collisions(es.drop_last());
        match first_with(es.drop_last(), es.last().kind, es.last().name) {
            Some(p) => rest.push((p, es.last())),
            None => rest,
        }
    }
}

pub open spec fn pair_views(ps: Seq<(Export, Export)>) -> Seq<(ExportModel, ExportModel)> {
    ps.map_values(|p: (Export, Export)| (p.0@, p.1@))
}

/// Builds the project's export index: each kind and name exported once.
/// Refused with every colliding pair when two exports share a kind and a
/// name.
pub fn build_export_index(interfaces: &[ModuleInterface]) -> (built: Result<ExportIndex, Vec<(Export, Export)>>)
    ensures
        collisions(all_exports(interfaces@)).len() == 0 ==> (built matches Ok(index) && index.wf() && (forall|
            k: DeclarationKind,
            n: Seq<char>,
        | lookup(index@, k, n) == first_with(all_exports(interfaces@), k, n))),
        collisions(all_exports(interfaces@)).len() > 0 ==> (built matches Err(pairs) && pair_views(pairs@) == collisions(
            all_exports(interfaces@),
        )),
{
    let mut index = ExportIndex::new();
    let mut duplicates: Vec<(Export, Export)> = Vec::new();
    let ghost mut seen: Seq<ExportModel> = Seq::empty();
    let mut i: usize = 0;
    while i < interfaces.len()
        invariant
            i <= interfaces@.len(),
            seen == all_exports(interfaces@.subrange(0, i as int)),
            index.wf(),
            forall|k: DeclarationKind, n: Seq<char>| lookup(index@, k, n) == first_with(seen, k, n),
            pair_views(duplicates@) == collisions(seen),
        decreases interfaces.len() - i,
    {
        let exports = &interfaces[i].exports;
        let ghost base = seen;
        let mut j: usize = 0;
        while j < exports.len()
            invariant
                i < interfaces@.len(),
                exports == &interfaces@[i as int].exports,
                j <= exports@.len(),
                base == all_exports(interfaces@.subrange(0, i as int)),
                seen == base + exports@.subrange(0, j as int).map_values(|e: Export| e@),
                index.wf(),
                forall|k: DeclarationKind, n: Seq<char>| lookup(index@, k, n) == first_with(seen, k, n),
                pair_views(duplicates@) == collisions(seen),
            decreases exports.len() - j,
        {
            let e = exports[j].clone();
            let ghost model = e@;
            let ghost next = seen.push(model);
            assert(next.drop_last() =~= seen);
            assert(next.last() == model);
            let ghost before = duplicates@;
            let ghost pre = index@;
            assert(lookup(pre, model.kind, model.name) == first_with(seen, model.kind, model.name));
            match index.insert(e) {
                Ok(()) => {
                    proof {
                        assert forall|k: DeclarationKind, n: Seq<char>| lookup(index@, k, n) == first_with(next, k, n) by {
                            assert(lookup(pre, k, n) == first_with(seen, k, n));
                            if (k, n) != (model.kind, model.name) {
                                assert(lookup(index@, k, n) == lookup(pre, k, n));
                            }
                        }
                        assert(collisions(next) == collisions(seen));
                    }
                },
                Err(pair) => {
                    duplicates.push(pair);
                    proof {
                        assert(pair_views(duplicates@) =~= pair_views(before).push((pair.0@, pair.1@)));
                        assert forall|k: DeclarationKind, n: Seq<char>| lookup(index@, k, n) == first_with(next, k, n) by {
                            assert(lookup(pre, k, n) == first_with(seen, k, n));
                        }
                    }
                },
            }
            proof {
                seen = next;
                assert(exports@.subrange(0, j as int + 1).map_values(|e: Export| e@) =~= exports@.subrange(0, j as int).map_values(
                    |e: Export| e@,
                ).push(exports@[j as int]@));
                assert(seen =~= base + exports@.subrange(0, j as int + 1).map_values(|e: Export| e@));
            }
            j = j + 1;
        }
        proof {
            let sub = interfaces@.subrange(0, i as int + 1);
            assert(sub.drop_last() =~= interfaces@.subrange(0, i as int));
            assert(sub.last() == interfaces@[i as int]);
            assert(exports@.subrange(0, exports@.len() as int) =~= exports@);
            assert(seen =~= all_exports(sub));
        }
        i = i + 1;
    }
    assert(interfaces@.subrange(0, interfaces@.len() as int) =~= interfaces@);
    if duplicates.len() == 0 {
        Ok(index)
    } else {
        Err(duplicates)
    }
}

/// Import aliases: each alias bound to one target.
#[derive(Debug)]
pub struct Aliases {
    entries: Vec<(String, String)>,
}

impl View for Aliases {
    type V = Seq<(Seq<char>, Seq<char>)>;

    closed spec fn view(&self) -> Seq<(Seq<char>, Seq<char>)> {
        self.entries@.map_values(|e: (String, String)| (e.0@, e.1@))
    }
}

/// What `alias` is bound to.
pub open spec fn alias_of(aliases: Seq<(Seq<char>, Seq<char>)>, alias: Seq<char>) -> Option<Seq<char>>
    decreases aliases.len(),
{
    if aliases.len() == 0 {
        None
    } else if aliases.last().0 == alias {
        Some(aliases.last().1)
    } else {
        alias_of(aliases.drop_last(), alias)
    }
}

impl Aliases {
    /// No aliases.
    pub fn new() -> (aliases: Aliases)
        ensures
            aliases@.len() == 0,
            forall|a: Seq<char>| alias_of(aliases@, a) is None,
    {
        let aliases = Aliases { entries: Vec::new() };
        assert(aliases@ =~= Seq::<(Seq<char>, Seq<char>)>::empty());
        aliases
    }

    fn position(&self, alias: &str) -> (k: Option<usize>)
        ensures
            match k {
                Some(i) => i < self@.len() && self@[i as int].0 == alias@ && (forall|j: int| i < j < self@.len() ==> self@[j].0 != alias@),
                None => forall|j: int| 0 <= j < self@.len() ==> self@[j].0 != alias@,
            },
    {
        let mut i = self.entries.len();
        while i > 0
            invariant
                i <= self@.len(),
                forall|j: int| i <= j < self@.len() ==> self@[j].0 != alias@,
            decreases i,
        {
            i = i - 1;
            if same_text(self.entries[i].0.as_str(), alias) {
                return Some(i);
            }
        }
        None
    }

    proof fn lemma_alias_at(s: Seq<(Seq<char>, Seq<char>)>, alias: Seq<char>, i: int)
        requires
            0 <= i < s.len(),
            s[i].0 == alias,
            forall|j: int| i < j < s.len() ==> s[j].0 != alias,
        ensures
            alias_of(s, alias) == Some(s[i].1),
        decreases s.len(),
    {
        if i < s.len() - 1 {
            Self::lemma_alias_at(s.drop_last(), alias, i);
        }
    }

    proof fn lemma_no_alias(s: Seq<(Seq<char>, Seq<char>)>, alias: Seq<char>)
        requires
            forall|j: int| 0 <= j < s.len() ==> s[j].0 != alias,
        ensures
            alias_of(s, alias) is None,
        decreases s.len(),
    {
        if s.len() > 0 {
            Self::lemma_no_alias(s.drop_last(), alias);
        }
    }

    /// What `alias` is bound to, if anything.
    pub fn get(&self, alias: &str) -> (target: Option<&str>)
        ensures
            match alias_of(self@, alias@) {
                Some(t) => target matches Some(x) && x@ == t,
                None => target is None,
            },
    {
        match self.position(alias) {
            Some(i) => {
                proof {
                    Self::lemma_alias_at(self@, alias@, i as int);
                }
                Some(self.entries[i].1.as_str())
            },
            None => {
                proof {
                    Self::lemma_no_alias(self@, alias@);
                }
                None
            },
        }
    }

    /// Binds `alias` to `target`, returning what it was bound to before.
    pub fn insert(&mut self, alias: String, target: String) -> (previous: Option<String>)
        ensures
            match alias_of(old(self)@, alias@) {
                Some(t) => previous matches Some(p) && p@ == t,
                None => previous is None,
            },
            alias_of(final(self)@, alias@) == Some(target@),
            forall|a: Seq<char>| a != alias@ ==> alias_of(final(self)@, a) == alias_of(old(self)@, a),
    {
        let previous = match self.get(alias.as_str()) {
            Some(t) => Some(t.to_owned()),
            None => None,
        };
        let ghost before = self@;
        self.entries.push((alias, target));
        assert(self@ =~= before.push((alias@, target@)));
        assert(self@.drop_last() =~= before);
        previous
    }
}

/// Where the first `\` splits a name: before it and after it, or the
/// whole name and nothing.
pub open spec fn split_first(name: Seq<char>) -> (Seq<char>, Seq<char>) {
    match first_index_from(name, '\\', 0) {
        Some(k) => (name.subrange(0, k), name.subrange(k + 1, name.len() as int)),
        None => (name, Seq::empty()),
    }
}

/// A relative name resolved: its first segment through an alias, or
/// else inside the namespace.
pub open spec fn qualified_name(name: Seq<char>, namespace: Seq<char>, aliases: Seq<(Seq<char>, Seq<char>)>) -> Seq<char> {
    let (first, rest) = split_first(name);
    match alias_of(aliases, first) {
        Some(target) => if rest.len() == 0 {
            target
        } else {
            target + "\\"@ + rest
        },
        None => if namespace.len() == 0 {
            name
        } else {
            namespace + "\\"@ + name
        },
    }
}

/// The name without its leading separators.
pub open spec fn without_leading_separators(name: Seq<char>) -> Seq<char>
    decreases name.len(),
{
    if name.len() > 0 && name[0] == '\\' {
        without_leading_separators(name.drop_first())
    } else {
        name
    }
}

/// A type name resolved: a fully qualified name as written, a built-in
/// type as it is, and any other through the aliases and namespace.
pub open spec fn resolved_type_name(name: Seq<char>, namespace: Seq<char>, aliases: Seq<(Seq<char>, Seq<char>)>) -> Seq<char> {
    if name.len() > 0 && name[0] == '\\' {
        without_leading_separators(name)
    } else if builtin_type(name) {
        name
    } else {
        qualified_name(name, namespace, aliases)
    }
}

/// A builtin type stays as written: in every namespace and under every
/// set of import aliases, each builtin type name resolves to itself, and
/// the names that do so without a leading separator for that reason are
/// exactly the builtin ones.
pub proof fn lemma_builtin_types_resolve_as_written(namespace: Seq<char>, aliases: Seq<(Seq<char>, Seq<char>)>)
    ensures
        resolved_type_name("int"@, namespace, aliases) == "int"@,
        resolved_type_name("float"@, namespace, aliases) == "float"@,
        resolved_type_name("bool"@, namespace, aliases) == "bool"@,
        resolved_type_name("string"@, namespace, aliases) == "string"@,
        resolved_type_name("void"@, namespace, aliases) == "void"@,
        resolved_type_name("never"@, namespace, aliases) == "never"@,
        resolved_type_name("mixed"@, namespace, aliases) == "mixed"@,
        resolved_type_name("null"@, namespace, aliases) == "null"@,
        resolved_type_name("Vec"@, namespace, aliases) == "Vec"@,
        resolved_type_name("Map"@, namespace, aliases) == "Map"@,
        resolved_type_name("Stream"@, namespace, aliases) == "Stream"@,
        resolved_type_name("Exception"@, namespace, aliases) == "Exception"@,
        resolved_type_name("Resource"@, namespace, aliases) == "Resource"@,
        forall|name: Seq<char>| builtin_type(name) <==> #[trigger] builtin_type_names().contains(name),
{
    reveal_strlit("int");
    reveal_strlit("float");
    reveal_strlit("bool");
    reveal_strlit("string");
    reveal_strlit("void");
    reveal_strlit("never");
    reveal_strlit("mixed");
    reveal_strlit("null");
    reveal_strlit("Vec");
    reveal_strlit("Map");
    reveal_strlit("Stream");
    reveal_strlit("Exception");
    reveal_strlit("Resource");
    assert forall|name: Seq<char>| builtin_type(name) <==> #[trigger] builtin_type_names().contains(name) by {
        lemma_builtin_type_names(name);
    }
}

/// A function name resolved: a fully qualified name as written; a
/// qualified or aliased name, or one that names an exported function once
/// resolved, through the aliases and namespace; any other as written.
pub open spec fn resolved_function_name(
    name: Seq<char>,
    namespace: Seq<char>,
    aliases: Seq<(Seq<char>, Seq<char>)>,
    index: Seq<ExportModel>,
) -> Seq<char> {
    if name.len() > 0 && name[0] == '\\' {
        without_leading_separators(name)
    } else {
        let resolved = qualified_name(name, namespace, aliases);
        if name.contains('\\') || alias_of(aliases, name) is Some || lookup(index, DeclarationKind::Function, resolved) is Some {
            resolved
        } else {
            name
        }
    }
}

fn first_separator(s: &[char]) -> (k: Option<usize>)
    ensures
        k matches Some(v) ==> (v < s@.len() && s@[v as int] == '\\' && first_index_from(s@, '\\', 0) == Some(v as int)),
        k is None ==> first_index_from(s@, '\\', 0) is None && !s@.contains('\\'),
{
    proof {
        lemma_first_index_from(s@, '\\', 0);
    }
    let mut i: usize = 0;
    while i < s.len()
        invariant
            i <= s@.len(),
            first_index_from(s@, '\\', 0) == first_index_from(s@, '\\', i as int),
        decreases s.len() - i,
    {
        if s[i] == '\\' {
            return Some(i);
        }
        i = i + 1;
    }
    proof {
        lemma_first_index_from(s@, '\\', 0);
    }
    None
}

fn strip_separators(name: &[char]) -> (out: Vec<char>)
    ensures
        out@ == without_leading_separators(name@),
{
    let mut i: usize = 0;
    assert(name@.subrange(0, name@.len() as int) =~= name@);
    while i < name.len() && name[i] == '\\'
        invariant
            i <= name@.len(),
            without_leading_separators(name@) == without_leading_separators(name@.subrange(i as int, name@.len() as int)),
        decreases name.len() - i,
    {
        assert(name@.subrange(i as int, name@.len() as int).drop_first() =~= name@.subrange(i as int + 1, name@.len() as int));
        i = i + 1;
    }
    copy_chars(name, i, name.len())
}

/// Resolves a relative name through the aliases and the namespace.
pub fn resolve_qualified(name: &str, namespace: &str, aliases: &Aliases) -> (resolved: String)
    ensures
        resolved@ == qualified_name(name@, namespace@, aliases@),
{
    let chars = chars_of(name);
    let text = chars.as_slice();
    let (first, rest) = match first_separator(text) {
        Some(k) => {
            assert(k < text.len());
            (copy_chars(text, 0, k), copy_chars(text, k + 1, text.len()))
        },
        None => (copy_chars(text, 0, text.len()), Vec::new()),
    };
    assert(text@.subrange(0, text@.len() as int) =~= text@);
    assert(split_first(name@) == (first@, rest@));
    let first_text = string_of(first.as_slice());
    let mut out: Vec<char> = Vec::new();
    match aliases.get(first_text.as_str()) {
        Some(target) => {
            push_str(&mut out, target);
            if rest.len() > 0 {
                push_str(&mut out, "\\");
                push_chars(&mut out, rest.as_slice());
            }
        },
        None => {
            let space = chars_of(namespace);
            if space.len() > 0 {
                push_str(&mut out, namespace);
                push_str(&mut out, "\\");
            }
            push_str(&mut out, name);
        },
    }
    proof {
        reveal_strlit("\\");
    }
    string_of(out.as_slice())
}

/// Resolves a type name.
pub fn resolve_type_name(name: &str, namespace: &str, aliases: &Aliases) -> (resolved: String)
    ensures
        resolved@ == resolved_type_name(name@, namespace@, aliases@),
{
    let chars = chars_of(name);
    if chars.len() > 0 && chars[0] == '\\' {
        return string_of(strip_separators(chars.as_slice()).as_slice());
    }
    if is_builtin_type(name) {
        return name.to_owned();
    }
    resolve_qualified(name, namespace, aliases)
}

/// Resolves the name of a called function.
pub fn resolve_function_name(name: &str, namespace: &str, aliases: &Aliases, index: &ExportIndex) -> (resolved: String)
    requires
        index.wf(),
    ensures
        resolved@ == resolved_function_name(name@, namespace@, aliases@, index@),
{
    let chars = chars_of(name);
    if chars.len() > 0 && chars[0] == '\\' {
        return string_of(strip_separators(chars.as_slice()).as_slice());
    }
    let resolved = resolve_qualified(name, namespace, aliases);
    let text = chars.as_slice();
    let qualified = match first_separator(text) {
        Some(k) => {
            assert(name@.contains('\\')) by {
                assert(text@[k as int] == '\\');
            }
            true
        },
        None => false,
    };
    if qualified || aliases.get(name).is_some() || index.get(DeclarationKind::Function, resolved.as_str()).is_some() {
        resolved
    } else {
        name.to_owned()
    }
}

/// The name an import brings in, with its segments joined by `\`.
pub open spec fn import_target(u: UseDecl) -> Seq<char> {
    joined_segments(u.target)
}

/// What the imports bind `alias` to, for imports of `kind`: the target of
/// the last import with that alias.
pub open spec fn bound(imports: Seq<UseDecl>, kind: UseKind, alias: Seq<char>) -> Option<Seq<char>>
    decreases imports.len(),
{
    if imports.len() == 0 {
        None
    } else if imports.last().kind == kind && imports.last().alias@ == alias {
        Some(import_target(imports.last()))
    } else {
        bound(imports.drop_last(), kind, alias)
    }
}

/// The declaration an import of `kind` names, if the index has it.
pub open spec fn imported(index: Seq<ExportModel>, kind: UseKind, target: Seq<char>) -> Option<ExportModel> {
    match kind {
        UseKind::Type => lookup_type(index, target),
        UseKind::Function => lookup(index, DeclarationKind::Function, target),
    }
}

/// A problem with an import.
pub enum ImportIssue {
    /// The alias was bound before, to `previous`.
    DuplicateAlias { alias: Seq<char>, previous: Seq<char>, span: Span },
    /// Nothing of that kind and name is exported.
    Unknown { kind: UseKind, target: Seq<char>, span: Span },
}

/// The problems with the imports, in order: for each import, a rebound
/// alias, then an unknown target.
pub open spec fn import_issues(imports: Seq<UseDecl>, index: Seq<ExportModel>) -> Seq<ImportIssue>
    decreases imports.len(),
{
    if imports.len() == 0 {
        Seq::empty()
    } else {
        let u = imports.last();
        let before = imports.drop_last();
        let duplicate = match bound(before, u.kind, u.alias@) {
            Some(previous) => seq![ImportIssue::DuplicateAlias { alias: u.alias@, previous, span: u.alias_span }],
            None => Seq::empty(),
        };
        let unknown = if imported(index, u.kind, import_target(u)) is None {
            seq![ImportIssue::Unknown { kind: u.kind, target: import_target(u), span: u.target.span }]
        } else {
            Seq::empty()
        };
        import_issues(before, index) + duplicate + unknown
    }
}

/// Text between backquotes.
pub open spec fn quote(text: Seq<char>) -> Seq<char> {
    "`"@ + text + "`"@
}

pub open spec fn use_kind_word(kind: UseKind) -> Seq<char> {
    match kind {
        UseKind::Type => "type"@,
        UseKind::Function => "function"@,
    }
}

/// The diagnostic reports the import problem.
pub open spec fn reports_import(d: Diagnostic, issue: ImportIssue) -> bool {
    &&& d.stage@ == "resolution"@
    &&& match issue {
        ImportIssue::DuplicateAlias { alias, previous, span } => {
            &&& d.code@ == "M0002"@
            &&& d.span == span
            &&& d.message@ == "duplicate import alias "@ + quote(alias)
            &&& d.notes@.len() == 1
            &&& d.notes@[0]@ == "the alias was already bound to "@ + quote(previous)
        },
        ImportIssue::Unknown { kind, target, span } => {
            &&& d.code@ == "M0003"@
            &&& d.span == span
            &&& d.message@ == "unknown imported "@ + use_kind_word(kind) + " "@ + quote(target)
            &&& d.notes@.len() == 0
        },
    }
}

/// The aliases that a module's imports bind, and what is wrong with them.
pub struct ImportBindings {
    pub types: Aliases,
    pub functions: Aliases,
    pub diagnostics: Vec<Diagnostic>,
}

fn quoted(before: &str, text: &str) -> (message: String)
    ensures
        message@ == before@ + quote(text@),
{
    let mut out = chars_of(before);
    push_str(&mut out, "`");
    push_str(&mut out, text);
    push_str(&mut out, "`");
    assert(out@ =~= before@ + quote(text@));
    string_of(out.as_slice())
}

/// Binds a module's import aliases, by kind; an alias bound twice keeps
/// its last target and is reported, and so is an import of something the
/// index does not export.
pub fn bind_imports(imports: &[UseDecl], index: &ExportIndex) -> (bindings: ImportBindings)
    requires
        index.wf(),
    ensures
        forall|a: Seq<char>| alias_of(bindings.types@, a) == bound(imports@, UseKind::Type, a),
        forall|a: Seq<char>| alias_of(bindings.functions@, a) == bound(imports@, UseKind::Function, a),
        bindings.diagnostics@.len() == import_issues(imports@, index@).len(),
        forall|k: int| 0 <= k < bindings.diagnostics@.len() ==> reports_import(#[trigger] bindings.diagnostics@[k], import_issues(imports@, index@)[k]),
{
    let mut types = Aliases::new();
    let mut functions = Aliases::new();
    let mut diagnostics: Vec<Diagnostic> = Vec::new();
    let mut i: usize = 0;
    while i < imports.len()
        invariant
            i <= imports@.len(),
            index.wf(),
            forall|a: Seq<char>| alias_of(types@, a) == bound(imports@.subrange(0, i as int), UseKind::Type, a),
            forall|a: Seq<char>| alias_of(functions@, a) == bound(imports@.subrange(0, i as int), UseKind::Function, a),
            diagnostics@.len() == import_issues(imports@.subrange(0, i as int), index@).len(),
            forall|k: int| 0 <= k < diagnostics@.len() ==> reports_import(#[trigger] diagnostics@[k], import_issues(imports@.subrange(0, i as int), index@)[k]),
        decreases imports.len() - i,
    {
        let u = &imports[i];
        let ghost done = imports@.subrange(0, i as int);
        let ghost next = imports@.subrange(0, i as int + 1);
        assert(next.drop_last() =~= done);
        assert(next.last() == *u);
        let target = join_segments(&u.target.segments);
        let ghost before_types = types@;
        let ghost before_functions = functions@;
        let ghost before_diagnostics = diagnostics@;
        let previous = match u.kind {
            UseKind::Type => types.insert(u.alias.clone(), target.clone()),
            UseKind::Function => functions.insert(u.alias.clone(), target.clone()),
        };
        let ghost duplicate = match bound(done, u.kind, u.alias@) {
            Some(p) => seq![ImportIssue::DuplicateAlias { alias: u.alias@, previous: p, span: u.alias_span }],
            None => Seq::<ImportIssue>::empty(),
        };
        assert(match u.kind {
            UseKind::Type => alias_of(before_types, u.alias@),
            UseKind::Function => alias_of(before_functions, u.alias@),
        } == bound(done, u.kind, u.alias@));
        if let Some(previous) = previous {
            let message = quoted("duplicate import alias ", u.alias.as_str());
            let note = quoted("the alias was already bound to ", previous.as_str());
            let mut notes: Vec<String> = Vec::new();
            notes.push(note);
            diagnostics.push(Diagnostic {
                stage: "resolution".to_owned(),
                code: "M0002".to_owned(),
                span: u.alias_span,
                message,
                notes,
            });
        }
        let found = match u.kind {
            UseKind::Type => index.find_type(target.as_str()).is_some(),
            UseKind::Function => index.get(DeclarationKind::Function, target.as_str()).is_some(),
        };
        let ghost unknown = if imported(index@, u.kind, import_target(*u)) is None {
            seq![ImportIssue::Unknown { kind: u.kind, target: import_target(*u), span: u.target.span }]
        } else {
            Seq::<ImportIssue>::empty()
        };
        let ghost mid_diagnostics = diagnostics@;
        if !found {
            let word = match u.kind {
                UseKind::Type => "unknown imported type ",
                UseKind::Function => "unknown imported function ",
            };
            let message = quoted(word, target.as_str());
            proof {
                reveal_strlit("unknown imported type ");
                reveal_strlit("unknown imported function ");
                reveal_strlit("unknown imported ");
                reveal_strlit("type");
                reveal_strlit("function");
                reveal_strlit(" ");
                assert(word@ == "unknown imported "@ + use_kind_word(u.kind) + " "@);
            }
            diagnostics.push(Diagnostic {
                stage: "resolution".to_owned(),
                code: "M0003".to_owned(),
                span: u.target.span,
                message,
                notes: Vec::new(),
            });
        }
        proof {
            assert(import_issues(next, index@) == import_issues(done, index@) + duplicate + unknown);
            let all = import_issues(next, index@);
            let old_issues = import_issues(done, index@);
            assert(mid_diagnostics.len() == before_diagnostics.len() + duplicate.len());
            assert(diagnostics@.len() == mid_diagnostics.len() + unknown.len());
            assert forall|k: int| 0 <= k < diagnostics@.len() implies reports_import(#[trigger] diagnostics@[k], all[k]) by {
                if k < before_diagnostics.len() {
                    assert(diagnostics@[k] == before_diagnostics[k]);
                    assert(all[k] == old_issues[k]);
                } else if k < mid_diagnostics.len() {
                    assert(diagnostics@[k] == mid_diagnostics[k]);
                    assert(all[k] == duplicate[0]);
                } else {
                    assert(all[k] == unknown[0]);
                }
            }
            assert forall|a: Seq<char>| alias_of(types@, a) == bound(next, UseKind::Type, a) by {
                assert(alias_of(before_types, a) == bound(done, UseKind::Type, a));
            }
            assert forall|a: Seq<char>| alias_of(functions@, a) == bound(next, UseKind::Function, a) by {
                assert(alias_of(before_functions, a) == bound(done, UseKind::Function, a));
            }
        }
        i = i + 1;
    }
    assert(imports@.subrange(0, imports@.len() as int) =~= imports@);
    ImportBindings { types, functions, diagnostics }
}

/// The import edges of a module, in order: one to the exporting module of
/// each imported declaration that another module exports.
pub open spec fn import_edge_keys(module: Seq<char>, imports: Seq<UseDecl>, index: Seq<ExportModel>) -> Seq<(Seq<char>, Seq<char>, DependencyKind, Seq<char>)>
    decreases imports.len(),
{
    if imports.len() == 0 {
        Seq::empty()
    } else {
        let u = imports.last();
        let rest = import_edge_keys(module, imports.drop_last(), index);
        match imported(index, u.kind, import_target(u)) {
            Some(e) => if e.module != module {
                rest.push((module, e.module, DependencyKind::Import, import_target(u)))
            } else {
                rest
            },
            None => rest,
        }
    }
}

/// The imports whose targets the index lacks: the module, the target and
/// where it is written, in order.
pub open spec fn unknown_imports(module: Seq<char>, imports: Seq<UseDecl>, index: Seq<ExportModel>) -> Seq<(Seq<char>, Seq<char>, Span)>
    decreases imports.len(),
{
    if imports.len() == 0 {
        Seq::empty()
    } else {
        let u = imports.last();
        let rest = unknown_imports(module, imports.drop_last(), index);
        if imported(index, u.kind, import_target(u)) is None {
            rest.push((module, import_target(u), u.target.span))
        } else {
            rest
        }
    }
}

/// The dependency edges that a module's imports make, and the imports of
/// targets that nothing exports.
pub fn import_edges(module: &ModuleId, imports: &[UseDecl], index: &ExportIndex) -> (found: (
    Vec<DependencyEdge>,
    Vec<(ModuleId, String, Span)>,
))
    requires
        index.wf(),
    ensures
        found.0@.map_values(|e: DependencyEdge| (e.from@, e.to@, e.kind, e.symbol@)) == import_edge_keys(module@, imports@, index@),
        found.1@.map_values(|u: (ModuleId, String, Span)| (u.0@, u.1@, u.2)) == unknown_imports(module@, imports@, index@),
{
    let mut edges: Vec<DependencyEdge> = Vec::new();
    let mut unknown: Vec<(ModuleId, String, Span)> = Vec::new();
    let mut i: usize = 0;
    while i < imports.len()
        invariant
            i <= imports@.len(),
            index.wf(),
            edges@.map_values(|e: DependencyEdge| (e.from@, e.to@, e.kind, e.symbol@)) == import_edge_keys(module@, imports@.subrange(0, i as int), index@),
            unknown@.map_values(|u: (ModuleId, String, Span)| (u.0@, u.1@, u.2)) == unknown_imports(module@, imports@.subrange(0, i as int), index@),
        decreases imports.len() - i,
    {
        let u = &imports[i];
        let ghost done = imports@.subrange(0, i as int);
        let ghost next = imports@.subrange(0, i as int + 1);
        assert(next.drop_last() =~= done);
        assert(next.last() == *u);
        let target = join_segments(&u.target.segments);
        let export = match u.kind {
            UseKind::Type => index.find_type(target.as_str()),
            UseKind::Function => index.get(DeclarationKind::Function, target.as_str()),
        };
        let ghost before_edges = edges@.map_values(|e: DependencyEdge| (e.from@, e.to@, e.kind, e.symbol@));
        let ghost before_unknown = unknown@.map_values(|u: (ModuleId, String, Span)| (u.0@, u.1@, u.2));
        match export {
            Some(e) => {
                if !same_text(e.module.as_str(), module.as_str()) {
                    edges.push(DependencyEdge {
                        from: module.clone(),
                        to: e.module.clone(),
                        kind: DependencyKind::Import,
                        symbol: target.clone(),
                    });
                    assert(edges@.map_values(|e: DependencyEdge| (e.from@, e.to@, e.kind, e.symbol@)) =~= before_edges.push(
                        (module@, e.module@, DependencyKind::Import, target@),
                    ));
                }
            },
            None => {
                unknown.push((module.clone(), target.clone(), u.target.span));
                assert(unknown@.map_values(|u: (ModuleId, String, Span)| (u.0@, u.1@, u.2)) =~= before_unknown.push(
                    (module@, target@, u.target.span),
                ));
            },
        }
        i = i + 1;
    }
    assert(imports@.subrange(0, imports@.len() as int) =~= imports@);
    (edges, unknown)
}

} // verus!
