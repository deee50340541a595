//! Absolute paths as sequences of component names.

use vstd::prelude::*;

verus! {

/// `q` is `p` followed by zero or more components.
pub open spec fn extends(q: Seq<Seq<u8>>, p: Seq<Seq<u8>>) -> bool {
    p.len() <= q.len() && q.subrange(0, p.len() as int) == p
}

/// Compares two names byte by byte.
pub fn same_name(a: &Vec<u8>, b: &Vec<u8>) -> (same: bool)
    ensures
        same == (a@ == b@),
{
    if a.len() != b.len() {
        return false;
    }
    let mut i: usize = 0;
    while i < a.len()
        invariant
            a@.len() == b@.len(),
            i <= a@.len(),
            forall|j: int| 0 <= j < i ==> a@[j] == b@[j],
        decreases a@.len() - i,
    {
        if a[i] != b[i] {
            return false;
        }
        i += 1;
    }
    assert(a@ =~= b@);
    true
}

/// Copies a name.
pub fn copy_name(name: &Vec<u8>) -> (copy: Vec<u8>)
    ensures
        copy@ == name@,
{
    let mut copy: Vec<u8> = Vec::with_capacity(name.len());
    let mut i: usize = 0;
    while i < name.len()
        invariant
            i <= name@.len(),
            copy@ == name@.subrange(0, i as int),
        decreases name@.len() - i,
    {
        copy.push(name[i]);
        assert(copy@ =~= name@.subrange(0, i + 1));
        i += 1;
    }
    assert(name@.subrange(0, name@.len() as int) =~= name@);
    copy
}

/// An absolute path: the names of its components, from the file system's
/// root downwards. The root itself has no component.
#[derive(Debug, PartialEq, Eq)]
pub struct AbsPath {
    comps: Vec<Vec<u8>>,
}

impl View for AbsPath {
    type V = Seq<Seq<u8>>;

    closed spec fn view(&self) -> Seq<Seq<u8>> {
        Seq::new(self.comps@.len(), |i: int| self.comps@[i]@)
    }
}

impl Clone for AbsPath {
    fn clone(&self) -> (copy: Self)
        ensures
            copy@ == self@,
    {
        let mut comps: Vec<Vec<u8>> = Vec::with_capacity(self.comps.len());
        let mut i: usize = 0;
        while i < self.comps.len()
            invariant
                i <= self.comps@.len(),
                comps@.len() == i,
                forall|j: int| 0 <= j < i ==> comps@[j]@ == self.comps@[j]@,
            decreases self.comps@.len() - i,
        {
            comps.push(copy_name(&self.comps[i]));
            i += 1;
        }
        let copy = AbsPath { comps };
        assert(copy@ =~= self@);
        copy
    }
}

impl AbsPath {
    /// The path of the file system's root.
    pub fn root() -> (path: Self)
        ensures
            path@ == Seq::<Seq<u8>>::empty(),
    {
        let path = AbsPath { comps: Vec::new() };
        assert(path@ =~= Seq::<Seq<u8>>::empty());
        path
    }

    /// The path whose components are `comps`, in this order.
    pub fn from_components(comps: Vec<Vec<u8>>) -> (path: Self)
        ensures
            path@.len() == comps@.len(),
            forall|i: int| 0 <= i < comps@.len() ==> path@[i] == comps@[i]@,
    {
        AbsPath { comps }
    }

    /// The number of components.
    pub fn len(&self) -> (n: usize)
        ensures
            n == self@.len(),
    {
        self.comps.len()
    }

    /// The `i`-th component, counted from the root.
    pub fn component(&self, i: usize) -> (name: &Vec<u8>)
        requires
            i < self@.len(),
        ensures
            name@ == self@[i as int],
    {
        &self.comps[i]
    }

    /// The last component, which the root does not have.
    pub fn file_name(&self) -> (name: Option<&Vec<u8>>)
        ensures
            self@.len() == 0 ==> name is None,
            self@.len() > 0 ==> (name matches Some(n) && n@ == self@.last()),
    {
        let n: usize = self.comps.len();
        if n == 0 {
            None
        } else {
            Some(&self.comps[n - 1])
        }
    }

    /// The path without its last component, which the root does not have.
    pub fn parent(&self) -> (parent: Option<Self>)
        ensures
            self@.len() == 0 ==> parent is None,
            self@.len() > 0 ==> (parent matches Some(p) && p@ == self@.drop_last()),
    {
        if self.comps.len() == 0 {
            return None;
        }
        let mut p = self.clone();
        p.pop();
        Some(p)
    }

    /// Appends one component.
    pub fn push(&mut self, name: Vec<u8>)
        ensures
            final(self)@ == old(self)@.push(name@),
    {
        self.comps.push(name);
        assert(self@ =~= old(self)@.push(name@));
    }

    /// Takes the last component off, if there is one.
    pub fn pop(&mut self) -> (name: Option<Vec<u8>>)
        ensures
            old(self)@.len() == 0 ==> name is None && final(self)@ == old(self)@,
            old(self)@.len() > 0 ==> final(self)@ == old(self)@.drop_last() && (name matches Some(n)
                && n@ == old(self)@.last()),
    {
        let name = self.comps.pop();
        if name.is_some() {
            assert(self@ =~= old(self)@.drop_last());
        } else {
            assert(self@ =~= old(self)@);
        }
        name
    }

    /// The path of the entry `name` of this directory.
    pub fn join(&self, name: &Vec<u8>) -> (child: Self)
        ensures
            child@ == self@.push(name@),
    {
        let mut child = self.clone();
        child.push(copy_name(name));
        child
    }

    /// Whether `base` is this path or one of its ancestors.
    pub fn starts_with(&self, base: &AbsPath) -> (yes: bool)
        ensures
            yes == extends(self@, base@),
    {
        if base.comps.len() > self.comps.len() {
            return false;
        }
        let mut i: usize = 0;
        while i < base.comps.len()
            invariant
                base.comps@.len() <= self.comps@.len(),
                i <= base.comps@.len(),
                forall|j: int| 0 <= j < i ==> base@[j] == self@[j],
            decreases base.comps@.len() - i,
        {
            if !same_name(&base.comps[i], &self.comps[i]) {
                assert(base@[i as int] != self@[i as int]);
                return false;
            }
            i += 1;
        }
        assert(base@ =~= self@.subrange(0, base@.len() as int));
        true
    }

    /// Whether both paths have the same components.
    pub fn same_as(&self, other: &AbsPath) -> (same: bool)
        ensures
            same == (self@ == other@),
    {
        if self.comps.len() != other.comps.len() {
            return false;
        }
        let same = self.starts_with(other);
        proof {
            assert(self@.subrange(0, other@.len() as int) =~= self@);
        }
        same
    }
}

/// The byte that separates the components of a path.
pub const SEPARATOR: u8 = 47;

/// Whether `name` can be a component of a canonical path: it is not
/// empty, holds neither a separator nor a zero byte, and is neither `.`
/// nor `..`.
pub open spec fn valid_name(name: Seq<u8>) -> bool {
    &&& name.len() > 0
    &&& forall|i: int| 0 <= i < name.len() ==> name[i] != SEPARATOR && name[i] != 0
    &&& name != seq![46u8]
    &&& name != seq![46u8, 46u8]
}

/// Whether all components can be components of a canonical path.
pub open spec fn canonical(comps: Seq<Seq<u8>>) -> bool {
    forall|i: int| 0 <= i < comps.len() ==> valid_name(#[trigger] comps[i])
}

/// The components in a row, each behind a separator.
pub open spec fn joined(comps: Seq<Seq<u8>>) -> Seq<u8>
    decreases comps.len(),
{
    if comps.len() == 0 {
        Seq::empty()
    } else {
        seq![SEPARATOR] + comps[0] + joined(comps.drop_first())
    }
}

/// The path as bytes: a single separator for the root, and else the
/// components, each behind a separator.
pub open spec fn text(comps: Seq<Seq<u8>>) -> Seq<u8> {
    if comps.len() == 0 {
        seq![SEPARATOR]
    } else {
        joined(comps)
    }
}

/// The index of the first separator at or behind `from`, or the length of
/// `bytes` if there is none.
pub open spec fn name_end(bytes: Seq<u8>, from: int) -> int
    decreases bytes.len() - from,
{
    if from < 0 || from >= bytes.len() || bytes[from] == SEPARATOR {
        from
    } else {
        name_end(bytes, from + 1)
    }
}

/// The components that `bytes` holds from `at` on, where each component
/// stands behind a separator and is valid, if that is how `bytes` goes on.
pub open spec fn split(bytes: Seq<u8>, at: int) -> Option<Seq<Seq<u8>>>
    decreases bytes.len() - at,
{
    if at < 0 || at >= bytes.len() {
        Some(Seq::empty())
    } else if bytes[at] != SEPARATOR {
        None
    } else {
        let end = name_end(bytes, at + 1);
        let name = bytes.subrange(at + 1, end);
        if !valid_name(name) {
            None
        } else {
            proof {
                lemma_name_end(bytes, at + 1);
            }
            match split(bytes, end) {
                Some(rest) => Some(seq![name] + rest),
                None => None,
            }
        }
    }
}

/// The components of the canonical absolute path that `bytes` spell, if
/// they spell one.
pub open spec fn parse(bytes: Seq<u8>) -> Option<Seq<Seq<u8>>> {
    if bytes.len() == 0 {
        None
    } else if bytes.len() == 1 && bytes[0] == SEPARATOR {
        Some(Seq::empty())
    } else {
        split(bytes, 0)
    }
}

/// The end of a name lies at or behind its start and within the bytes, no
/// separator stands before it, and one stands at it unless the bytes end
/// there.
pub proof fn lemma_name_end(bytes: Seq<u8>, from: int)
    requires
        0 <= from <= bytes.len(),
    ensures
        from <= name_end(bytes, from) <= bytes.len(),
        forall|i: int| from <= i < name_end(bytes, from) ==> bytes[i] != SEPARATOR,
        name_end(bytes, from) < bytes.len() ==> bytes[name_end(bytes, from)] == SEPARATOR,
    decreases bytes.len() - from,
{
    if from < bytes.len() && bytes[from] != SEPARATOR {
        lemma_name_end(bytes, from + 1);
    }
}

/// A stretch without separator that ends at a separator or at the end of
/// the bytes is a name.
pub proof fn lemma_name_end_is(bytes: Seq<u8>, from: int, end: int)
    requires
        0 <= from <= end <= bytes.len(),
        forall|i: int| from <= i < end ==> bytes[i] != SEPARATOR,
        end < bytes.len() ==> bytes[end] == SEPARATOR,
    ensures
        name_end(bytes, from) == end,
    decreases end - from,
{
    if from < end {
        lemma_name_end_is(bytes, from + 1, end);
    }
}

/// What was split off spells the rest of the bytes, and is canonical.
pub proof fn lemma_split_joined(bytes: Seq<u8>, at: int)
    requires
        0 <= at <= bytes.len(),
        split(bytes, at) is Some,
    ensures
        canonical(split(bytes, at).unwrap()),
        joined(split(bytes, at).unwrap()) == bytes.subrange(at, bytes.len() as int),
    decreases bytes.len() - at,
{
    if at < bytes.len() {
        let end = name_end(bytes, at + 1);
        let name = bytes.subrange(at + 1, end);
        lemma_name_end(bytes, at + 1);
        lemma_split_joined(bytes, end);
        let rest = split(bytes, end).unwrap();
        let comps = seq![name] + rest;
        assert(comps[0] == name);
        assert(comps.drop_first() =~= rest);
        assert(joined(comps) =~= bytes.subrange(at, bytes.len() as int));
        assert forall|i: int| 0 <= i < comps.len() implies valid_name(#[trigger] comps[i]) by {
            if i > 0 {
                assert(comps[i] == rest[i - 1]);
            }
        }
    } else {
        assert(bytes.subrange(at, bytes.len() as int) =~= Seq::empty());
    }
}

/// Bytes that go on as canonical components in a row split into these
/// components.
pub proof fn lemma_joined_split(bytes: Seq<u8>, at: int, comps: Seq<Seq<u8>>)
    requires
        0 <= at <= bytes.len(),
        canonical(comps),
        bytes.subrange(at, bytes.len() as int) == joined(comps),
    ensures
        split(bytes, at) == Some(comps),
    decreases comps.len(),
{
    let tail = bytes.subrange(at, bytes.len() as int);
    if comps.len() == 0 {
        assert(tail.len() == 0);
        assert(comps =~= Seq::empty());
    } else {
        let name = comps[0];
        let rest = comps.drop_first();
        let end = at + 1 + name.len();
        assert(valid_name(name));
        assert(tail =~= seq![SEPARATOR] + name + joined(rest));
        assert(tail[0] == SEPARATOR);
        assert(bytes[at] == tail[0]);
        assert forall|i: int| at + 1 <= i < end implies bytes[i] != SEPARATOR by {
            assert(bytes[i] == tail[i - at]);
            assert(tail[i - at] == name[i - at - 1]);
        }
        if end < bytes.len() {
            assert(bytes[end] == tail[end - at]);
            assert(tail[end - at] == joined(rest)[0]);
            assert(rest.len() > 0);
        }
        lemma_name_end_is(bytes, at + 1, end);
        assert(tail.len() == 1 + name.len() + joined(rest).len());
        assert forall|i: int| at + 1 <= i < end implies bytes[i] == name[i - at - 1] by {
            assert(bytes[i] == tail[i - at]);
        }
        assert forall|i: int| end <= i < bytes.len() implies bytes[i] == joined(rest)[i - end] by {
            assert(bytes[i] == tail[i - at]);
        }
        assert(bytes.subrange(at + 1, end) =~= name);
        assert(bytes.subrange(end, bytes.len() as int) =~= joined(rest));
        assert(canonical(rest)) by {
            assert forall|i: int| 0 <= i < rest.len() implies valid_name(#[trigger] rest[i]) by {
                assert(rest[i] == comps[i + 1]);
            }
        }
        lemma_joined_split(bytes, end, rest);
        assert(seq![name] + rest =~= comps);
    }
}

/// The bytes of a canonical path spell that path.
pub proof fn lemma_parse_text(comps: Seq<Seq<u8>>)
    requires
        canonical(comps),
    ensures
        parse(text(comps)) == Some(comps),
{
    let bytes = text(comps);
    if comps.len() == 0 {
        assert(comps =~= Seq::empty());
    } else {
        assert(valid_name(comps[0]));
        assert(bytes.len() >= 2);
        assert(bytes.subrange(0, bytes.len() as int) =~= bytes);
        lemma_joined_split(bytes, 0, comps);
    }
}

/// Bytes that spell a path spell a canonical path, and are its bytes.
pub proof fn lemma_text_parse(bytes: Seq<u8>)
    requires
        parse(bytes) is Some,
    ensures
        canonical(parse(bytes).unwrap()),
        text(parse(bytes).unwrap()) == bytes,
{
    if bytes.len() == 1 && bytes[0] == SEPARATOR {
        assert(bytes =~= seq![SEPARATOR]);
    } else {
        lemma_split_joined(bytes, 0);
        assert(bytes.subrange(0, bytes.len() as int) =~= bytes);
        let comps = split(bytes, 0).unwrap();
        if comps.len() == 0 {
            assert(joined(comps).len() == 0);
        }
    }
}

/// Whether `name` can be a component of a canonical path.
pub fn is_valid_name(name: &Vec<u8>) -> (valid: bool)
    ensures
        valid == valid_name(name@),
{
    let n: usize = name.len();
    if n == 0 {
        return false;
    }
    if n == 1 && name[0] == 46 {
        assert(name@ =~= seq![46u8]);
        return false;
    }
    if n == 2 && name[0] == 46 && name[1] == 46 {
        assert(name@ =~= seq![46u8, 46u8]);
        return false;
    }
    let mut i: usize = 0;
    while i < n
        invariant
            i <= n,
            n == name@.len(),
            forall|k: int| 0 <= k < i ==> name@[k] != SEPARATOR && name@[k] != 0,
        decreases n - i,
    {
        if name[i] == SEPARATOR || name[i] == 0 {
            return false;
        }
        i += 1;
    }
    true
}

impl AbsPath {
    /// All components can be components of a canonical path.
    pub open spec fn spec_is_canonical(&self) -> bool {
        canonical(self@)
    }

    /// Whether all components can be components of a canonical path.
    #[verifier::when_used_as_spec(spec_is_canonical)]
    pub fn is_canonical(&self) -> (yes: bool)
        ensures
            yes == self.spec_is_canonical(),
    {
        let mut i: usize = 0;
        while i < self.comps.len()
            invariant
                i <= self.comps@.len(),
                self@.len() == self.comps@.len(),
                forall|k: int| 0 <= k < i ==> valid_name(#[trigger] self@[k]),
            decreases self.comps@.len() - i,
        {
            if !is_valid_name(&self.comps[i]) {
                assert(!valid_name(self@[i as int]));
                return false;
            }
            i += 1;
        }
        true
    }

    /// The canonical absolute path that `bytes` spell: a separator alone
    /// for the root, and else one valid component behind each separator.
    /// Anything else spells no path.
    pub fn from_bytes(bytes: &[u8]) -> (r: Option<Self>)
        ensures
            match r {
                Some(path) => parse(bytes@) == Some(path@) && path.is_canonical() && text(path@)
                    == bytes@,
                None => parse(bytes@) is None,
            },
    {
        proof {
            if parse(bytes@) is Some {
                lemma_text_parse(bytes@);
            }
        }
        let n: usize = bytes.len();
        if n == 0 {
            return None;
        }
        if n == 1 && bytes[0] == SEPARATOR {
            return Some(Self::root());
        }
        let mut path = Self::root();
        let mut at: usize = 0;
        proof {
            if let Some(all) = split(bytes@, 0) {
                assert(path@ + all =~= all);
            }
        }
        while at < n
            invariant
                at <= n,
                n == bytes@.len(),
                parse(bytes@) == split(bytes@, 0),
                split(bytes@, 0) == match split(bytes@, at as int) {
                    Some(rest) => Some(path@ + rest),
                    None => None,
                },
            decreases n - at,
        {
            if bytes[at] != SEPARATOR {
                return None;
            }
            let start: usize = at + 1;
            let mut end: usize = start;
            let mut name: Vec<u8> = Vec::new();
            while end < n && bytes[end] != SEPARATOR
                invariant
                    start <= end <= n,
                    n == bytes@.len(),
                    name_end(bytes@, start as int) == name_end(bytes@, end as int),
                    name@ == bytes@.subrange(start as int, end as int),
                decreases n - end,
            {
                name.push(bytes[end]);
                assert(name@ =~= bytes@.subrange(start as int, end + 1));
                end += 1;
            }
            assert(name_end(bytes@, start as int) == end);
            if !is_valid_name(&name) {
                return None;
            }
            proof {
                let rest = split(bytes@, end as int);
                if rest is Some {
                    assert(path@ + (seq![name@] + rest.unwrap()) =~= path@.push(name@)
                        + rest.unwrap());
                }
            }
            path.push(name);
            at = end;
        }
        assert(path@ + Seq::<Seq<u8>>::empty() =~= path@);
        Some(path)
    }

    /// The path as bytes.
    pub fn to_bytes(&self) -> (bytes: Vec<u8>)
        ensures
            bytes@ == text(self@),
    {
        let mut bytes: Vec<u8> = Vec::new();
        if self.comps.len() == 0 {
            bytes.push(SEPARATOR);
            assert(bytes@ =~= seq![SEPARATOR]);
            return bytes;
        }
        let mut i: usize = 0;
        assert(self@.skip(0) =~= self@);
        while i < self.comps.len()
            invariant
                i <= self.comps@.len(),
                self@.len() == self.comps@.len(),
                bytes@ + joined(self@.skip(i as int)) == joined(self@),
            decreases self.comps@.len() - i,
        {
            let ghost before = bytes@;
            let ghost rest = self@.skip(i as int);
            bytes.push(SEPARATOR);
            let name = &self.comps[i];
            let mut k: usize = 0;
            while k < name.len()
                invariant
                    k <= name@.len(),
                    bytes@ == before + seq![SEPARATOR] + name@.subrange(0, k as int),
                decreases name@.len() - k,
            {
                bytes.push(name[k]);
                assert(bytes@ =~= before + seq![SEPARATOR] + name@.subrange(0, k + 1));
                k += 1;
            }
            proof {
                assert(name@.subrange(0, name@.len() as int) =~= name@);
                assert(rest[0] == name@);
                assert(rest.drop_first() =~= self@.skip(i + 1));
                assert(bytes@ + joined(self@.skip(i + 1)) =~= before + joined(rest));
            }
            i += 1;
        }
        assert(joined(self@.skip(self@.len() as int)) =~= Seq::<u8>::empty());
        assert(bytes@ + Seq::<u8>::empty() =~= bytes@);
        bytes
    }
}

} // verus!
