use vstd::prelude::*;

use crate::error::{BindErr, BindError};
use crate::text::{colons_to_hashes, copy_str, has_char, join_path, replace_colons};

verus! {

/// The mathematical model of a [`SeedData`].
pub ghost struct RegModel {
    /// Every absolute identifier registered so far, in order of registration.
    pub ids: Seq<Seq<char>>,
    /// The stack of parent contexts; the innermost scope is last.
    pub parents: Seq<Seq<char>>,
}

impl RegModel {
    /// The innermost parent context, if any.
    pub open spec fn parent(self) -> Option<Seq<char>> {
        if self.parents.len() == 0 {
            None
        } else {
            Some(self.parents.last())
        }
    }

    /// A fresh model with nothing registered and no scope.
    pub open spec fn empty() -> RegModel {
        RegModel { ids: Seq::empty(), parents: Seq::empty() }
    }

    /// The model of a speculative copy: no identifiers, the same scopes.
    pub open spec fn fork(self) -> RegModel {
        RegModel { ids: Seq::empty(), parents: self.parents }
    }
}

/// The absolute identifier that `raw` resolves to under `parent`, paired with
/// the context pushed for what is nested below it.
pub open spec fn resolve_id(raw: Seq<char>, parent: Option<Seq<char>>) -> (Seq<char>, Seq<char>) {
    if raw.len() > 0 && raw[0] == '#' {
        (raw.drop_first(), raw.drop_first())
    } else if raw.contains('#') || raw.contains(':') {
        (colons_to_hashes(raw), colons_to_hashes(raw))
    } else {
        match parent {
            Some(p) => (p + seq!['/'] + raw, raw),
            None => (raw, raw),
        }
    }
}

/// The context pushed for a sub-scope named `name` under `parent`.
pub open spec fn subscope_of(name: Seq<char>, parent: Option<Seq<char>>) -> Seq<char> {
    match parent {
        Some(p) => p + seq!['/'] + name,
        None => name,
    }
}

/// Registering `raw` on a registry in state `m`: the result and the next state.
pub open spec fn generate_id_spec(m: RegModel, raw: Seq<char>) -> (Result<Seq<char>, BindErr>, RegModel) {
    let (abs, par) = resolve_id(raw, m.parent());
    if m.ids.contains(abs) {
        (Err(BindErr::DuplicateId { id: abs }), m)
    } else {
        (Ok(abs), RegModel { ids: m.ids.push(abs), parents: m.parents.push(par) })
    }
}

/// Adding the identifiers `extra` to `ids` one by one, stopping at the first
/// that is already there.
pub open spec fn extend_spec(ids: Seq<Seq<char>>, extra: Seq<Seq<char>>) -> (Result<(), BindErr>, Seq<Seq<char>>)
    decreases extra.len(),
{
    if extra.len() == 0 {
        (Ok(()), ids)
    } else if ids.contains(extra[0]) {
        (Err(BindErr::DuplicateId { id: extra[0] }), ids)
    } else {
        extend_spec(ids.push(extra[0]), extra.drop_first())
    }
}

/// The per-document state of identifier resolution: every identifier seen,
/// and the stack of parent contexts.
pub struct SeedData {
    ids: Vec<String>,
    parents: Vec<String>,
}

impl View for SeedData {
    type V = RegModel;

    closed spec fn view(&self) -> RegModel {
        RegModel {
            ids: self.ids@.map_values(|s: String| s@),
            parents: self.parents@.map_values(|s: String| s@),
        }
    }
}

impl SeedData {
    /// No identifier is registered twice.
    pub open spec fn wf(&self) -> bool {
        self@.ids.no_duplicates()
    }

    /// An empty registry.
    pub fn new() -> (r: SeedData)
        ensures
            r@ == RegModel::empty(),
            r.wf(),
    {
        let r = SeedData { ids: Vec::new(), parents: Vec::new() };
        assert(r@.ids =~= Seq::<Seq<char>>::empty());
        assert(r@.parents =~= Seq::<Seq<char>>::empty());
        r
    }

    /// Whether `id` is registered.
    pub fn contains(&self, id: &String) -> (r: bool)
        ensures
            r == self@.ids.contains(id@),
    {
        let mut i: usize = 0;
        while i < self.ids.len()
            invariant
                i <= self.ids.len(),
                forall|j: int| 0 <= j < i ==> self@.ids[j] != id@,
            decreases self.ids.len() - i,
        {
            if self.ids[i] == *id {
                assert(self@.ids[i as int] == id@);
                return true;
            }
            i += 1;
        }
        false
    }

    /// The innermost parent context, if any.
    pub fn parent(&self) -> (r: Option<&String>)
        ensures
            match r {
                Some(p) => self@.parent() == Some(p@),
                None => self@.parent() is None,
            },
    {
        if self.parents.len() == 0 {
            None
        } else {
            Some(&self.parents[self.parents.len() - 1])
        }
    }

    /// Resolves `raw` against the innermost context, registers the absolute
    /// identifier and enters its scope; fails if it is already registered.
    pub fn generate_id(&mut self, raw: &str) -> (r: Result<String, BindError>)
        requires
            old(self).wf(),
        ensures
            final(self).wf(),
            (match r {
                Ok(s) => Ok(s@),
                Err(e) => Err(e@),
            }, final(self)@) == generate_id_spec(old(self)@, raw@),
    {
        let ghost m = self@;
        let n = raw.unicode_len();
        let (abs, par) = if n > 0 && raw.get_char(0) == '#' {
            let rest = copy_str(raw.substring_char(1, n));
            let rest2 = copy_str(raw.substring_char(1, n));
            assert(rest@ =~= raw@.drop_first());
            (rest, rest2)
        } else if has_char(raw, '#') || has_char(raw, ':') {
            (replace_colons(raw), replace_colons(raw))
        } else {
            match self.parent() {
                Some(p) => (join_path(p.as_str(), raw), copy_str(raw)),
                None => (copy_str(raw), copy_str(raw)),
            }
        };
        assert((abs@, par@) == resolve_id(raw@, m.parent()));
        if self.contains(&abs) {
            Err(BindError::DuplicateId { id: abs })
        } else {
            let abs2 = abs.clone();
            self.ids.push(abs2);
            self.parents.push(par);
            assert(self@.ids =~= m.ids.push(abs@));
            assert(self@.parents =~= m.parents.push(par@));
            Ok(abs)
        }
    }

    /// Enters a sub-scope named `name` below the innermost context, without
    /// registering anything.
    pub fn push_subscope(&mut self, name: &str)
        ensures
            final(self)@.ids == old(self)@.ids,
            final(self)@.parents == old(self)@.parents.push(subscope_of(name@, old(self)@.parent())),
    {
        let ghost m = self@;
        let ctx = match self.parent() {
            Some(p) => join_path(p.as_str(), name),
            None => copy_str(name),
        };
        self.parents.push(ctx);
        assert(self@.ids =~= m.ids);
        assert(self@.parents =~= m.parents.push(subscope_of(name@, m.parent())));
    }

    /// Leaves the innermost scope; does nothing when there is none.
    pub fn pop_parent_id(&mut self)
        ensures
            final(self)@.ids == old(self)@.ids,
            final(self)@.parents == if old(self)@.parents.len() == 0 {
                old(self)@.parents
            } else {
                old(self)@.parents.drop_last()
            },
    {
        let ghost m = self@;
        let _ = self.parents.pop();
        assert(self@.ids =~= m.ids);
        assert(self@.parents =~= if m.parents.len() == 0 { m.parents } else { m.parents.drop_last() });
    }

    /// A registry for a speculative decode: no identifiers, and a copy of the
    /// current scopes.
    pub fn fork(&self) -> (r: SeedData)
        ensures
            r@ == self@.fork(),
            r.wf(),
    {
        let mut parents: Vec<String> = Vec::new();
        let mut i: usize = 0;
        while i < self.parents.len()
            invariant
                i <= self.parents.len(),
                parents.len() == i,
                forall|j: int| 0 <= j < i ==> parents[j]@ == self.parents[j]@,
            decreases self.parents.len() - i,
        {
            parents.push(self.parents[i].clone());
            i += 1;
        }
        let r = SeedData { ids: Vec::new(), parents };
        assert(r@.ids =~= Seq::<Seq<char>>::empty());
        assert(r@.parents =~= self@.parents);
        r
    }

    /// Adds the identifiers of `other` to this registry, in the order they
    /// were registered there; fails at the first one already present.
    #[verifier::loop_isolation(false)]
    pub fn extend(&mut self, other: SeedData) -> (r: Result<(), BindError>)
        requires
            old(self).wf(),
        ensures
            final(self).wf(),
            final(self)@.parents == old(self)@.parents,
            (match r {
                Ok(u) => Ok(u),
                Err(e) => Err(e@),
            }, final(self)@.ids) == extend_spec(old(self)@.ids, other@.ids),
    {
        let ghost m = self@;
        let ghost extra = other@.ids;
        let SeedData { ids: other_ids, .. } = other;
        let mut i: usize = 0;
        assert(extra.subrange(0, extra.len() as int) =~= extra);
        while i < other_ids.len()
            invariant
                i <= other_ids.len(),
                extra == other_ids@.map_values(|s: String| s@),
                self.wf(),
                self@.parents == m.parents,
                extend_spec(m.ids, extra) == extend_spec(self@.ids, extra.subrange(i as int, extra.len() as int)),
            decreases other_ids.len() - i,
        {
            let ghost rest = extra.subrange(i as int, extra.len() as int);
            assert(rest[0] == other_ids[i as int]@);
            assert(rest.drop_first() =~= extra.subrange(i + 1, extra.len() as int));
            if self.contains(&other_ids[i]) {
                return Err(BindError::DuplicateId { id: other_ids[i].clone() });
            }
            let ghost before = self@.ids;
            self.ids.push(other_ids[i].clone());
            assert(self@.ids =~= before.push(other_ids[i as int]@));
            assert(self@.parents =~= m.parents);
            i += 1;
        }
        assert(extra.subrange(i as int, extra.len() as int) =~= Seq::<Seq<char>>::empty());
        Ok(())
    }
}

} // verus!
