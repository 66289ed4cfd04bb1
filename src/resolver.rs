//! A memoized index from canonical type strings back to type identifiers.
use vstd::prelude::*;
use vstd::string::StrSliceExecFns;
use crate::error::DecodeError;
use crate::registry::{PRIMITIVE_KINDS, Registry, TypeDef, kind_index, primitive_index};
use crate::render::{MAX_DEPTH, primitive_name, primitive_to_type_string, render, rendered, text_result};

verus! {

/// The id stored for `key` in an insertion log: the latest insertion wins.
pub open spec fn lookup_in(log: Seq<(Seq<char>, u32)>, key: Seq<char>) -> Option<u32>
    decreases log.len(),
{
    if log.len() == 0 {
        None
    } else if log.last().0 == key {
        Some(log.last().1)
    } else {
        lookup_in(log.drop_last(), key)
    }
}

/// The canonical strings of the first `n` entries, or the first failure.
pub open spec fn render_scan(reg: Registry, n: nat) -> Result<Seq<Seq<char>>, DecodeError>
    decreases n,
{
    if n == 0 {
        Ok(seq![])
    } else {
        match render_scan(reg, (n - 1) as nat) {
            Err(e) => Err(e),
            Ok(p) => match rendered(reg, (n - 1) as u32, MAX_DEPTH as nat) {
                Err(e) => Err(e),
                Ok(s) => Ok(p.push(s)),
            },
        }
    }
}

/// True when every primitive kind is marked in `seen` (indexed by
/// `kind_index`).
pub open spec fn all_kinds_seen(seen: Seq<bool>) -> bool {
    forall|j: int| 0 <= j < PRIMITIVE_KINDS ==> #[trigger] seen[j]
}

/// No primitive kind marked yet.
pub open spec fn no_kinds() -> Seq<bool> {
    Seq::new(PRIMITIVE_KINDS as nat, |_j: int| false)
}

/// The primitive-priming insertions from entry `i` on, when the kinds marked
/// in `seen` are already mapped: every primitive entry is inserted under its
/// name, and the pass ends once every primitive kind has been mapped.
pub open spec fn prime_log(reg: Registry, i: nat, seen: Seq<bool>) -> Seq<(Seq<char>, u32)>
    decreases reg.types@.len() - i,
{
    if i >= reg.types@.len() || all_kinds_seen(seen) {
        seq![]
    } else {
        match reg.types@[i as int].def {
            TypeDef::Primitive(k) => seq![(primitive_name(k), i as u32)] + prime_log(
                reg,
                i + 1,
                seen.update(kind_index(k) as int, true),
            ),
            _ => prime_log(reg, i + 1, seen),
        }
    }
}

/// The whole primitive-priming pass over `reg`.
pub open spec fn primed_log(reg: Registry) -> Seq<(Seq<char>, u32)> {
    prime_log(reg, 0, no_kinds())
}

/// How many flags of `s` are set.
pub open spec fn count_set(s: Seq<bool>) -> nat
    decreases s.len(),
{
    if s.len() == 0 {
        0
    } else {
        count_set(s.drop_last()) + if s.last() {
            1nat
        } else {
            0nat
        }
    }
}

proof fn lemma_count_set_full(s: Seq<bool>)
    ensures
        count_set(s) <= s.len(),
        count_set(s) == s.len() <==> forall|j: int| 0 <= j < s.len() ==> #[trigger] s[j],
    decreases s.len(),
{
    if s.len() > 0 {
        lemma_count_set_full(s.drop_last());
        if count_set(s) == s.len() {
            assert forall|j: int| 0 <= j < s.len() implies #[trigger] s[j] by {
                if j < s.len() - 1 {
                    assert(s.drop_last()[j] == s[j]);
                }
            }
        }
        if forall|j: int| 0 <= j < s.len() ==> #[trigger] s[j] {
            assert forall|j: int| 0 <= j < s.drop_last().len() implies #[trigger] s.drop_last()[j] by {
                assert(s[j]);
            }
        }
    }
}

proof fn lemma_count_zero(s: Seq<bool>)
    requires
        forall|j: int| 0 <= j < s.len() ==> !#[trigger] s[j],
    ensures
        count_set(s) == 0,
    decreases s.len(),
{
    if s.len() > 0 {
        assert(!s[s.len() - 1]);
        assert forall|j: int| 0 <= j < s.drop_last().len() implies !#[trigger] s.drop_last()[j] by {
            assert(!s[j]);
        }
        lemma_count_zero(s.drop_last());
    }
}

proof fn lemma_count_set_update(s: Seq<bool>, j: int)
    requires
        0 <= j < s.len(),
        !s[j],
    ensures
        count_set(s.update(j, true)) == count_set(s) + 1,
    decreases s.len(),
{
    let t = s.update(j, true);
    if j == s.len() - 1 {
        assert(t.drop_last() =~= s.drop_last());
    } else {
        assert(t.drop_last() =~= s.drop_last().update(j, true));
        lemma_count_set_update(s.drop_last(), j);
    }
}

/// Each entry's canonical string paired with its id.
pub open spec fn pairs(names: Seq<Seq<char>>) -> Seq<(Seq<char>, u32)> {
    Seq::new(names.len(), |i: int| (names[i], i as u32))
}

/// An index from canonical type string to type id.
///
/// It is kept as the log of its insertions, and a lookup reads the latest
/// insertion for its key. A lookup scans the log from the end, so it is
/// linear in the number of insertions. A `HashMap<String, u32>` would give
/// constant-time lookups, but vstd's specification of `HashMap` proves
/// nothing about `String` keys, so its contracts could not be shown.
pub struct TypeIndex {
    entries: Vec<(String, u32)>,
}

impl View for TypeIndex {
    type V = Seq<(Seq<char>, u32)>;

    /// The insertions made, oldest first.
    closed spec fn view(&self) -> Seq<(Seq<char>, u32)> {
        Seq::new(self.entries@.len(), |i: int| (self.entries@[i].0@, self.entries@[i].1))
    }
}

impl TypeIndex {
    /// An empty index.
    pub fn new() -> (r: TypeIndex)
        ensures
            r@ == Seq::<(Seq<char>, u32)>::empty(),
    {
        let r = TypeIndex { entries: Vec::new() };
        assert(r@ =~= Seq::<(Seq<char>, u32)>::empty());
        r
    }

    /// Maps `key` to `id`, replacing what it mapped to.
    pub fn insert(&mut self, key: String, id: u32)
        ensures
            final(self)@ == old(self)@.push((key@, id)),
    {
        self.entries.push((key, id));
        assert(self@ =~= old(self)@.push((key@, id)));
    }

    /// The id that `type_string` maps to, by exact match.
    pub fn lookup(&self, type_string: &str) -> (r: Option<u32>)
        ensures
            r == lookup_in(self@, type_string@),
    {
        let key = String::from_str(type_string);
        let mut i: usize = self.entries.len();
        assert(self@.take(i as int) =~= self@);
        while i > 0
            invariant
                i <= self@.len(),
                key@ == type_string@,
                lookup_in(self@, key@) == lookup_in(self@.take(i as int), key@),
            decreases i,
        {
            let ghost t = self@.take(i as int);
            assert(t.drop_last() =~= self@.take(i - 1));
            let found = self.entries[i - 1].0.eq(&key);
            if found {
                assert(t.last() == self@[i - 1]);
                assert(self.entries@[i - 1].0@ == key@);
                assert(lookup_in(t, key@) == Some(t.last().1));
                return Some(self.entries[i - 1].1);
            }
            i -= 1;
        }
        None
    }

    /// Builds the index of every entry of `registry`.
    pub fn build(registry: &Registry) -> (r: Result<TypeIndex, DecodeError>)
        requires
            registry.types@.len() <= u32::MAX,
        ensures
            match r {
                Ok(index) => render_scan(*registry, registry.types@.len()) is Ok && index@
                    == primed_log(*registry) + pairs(
                    render_scan(*registry, registry.types@.len())->Ok_0,
                ),
                Err(e) => render_scan(*registry, registry.types@.len()) == Err::<
                    Seq<Seq<char>>,
                    DecodeError,
                >(e),
            },
    {
        let mut index = TypeIndex::new();
        match fill_memo_using_well_known_types(&mut index, registry) {
            Ok(()) => {
                assert(index@ =~= primed_log(*registry) + pairs(
                    render_scan(*registry, registry.types@.len())->Ok_0,
                ));
                Ok(index)
            },
            Err(e) => Err(e),
        }
    }
}

/// Renders every entry, stopping at the first failure.
fn render_all(registry: &Registry) -> (r: Result<Vec<String>, DecodeError>)
    requires
        registry.types@.len() <= u32::MAX,
    ensures
        match r {
            Ok(v) => render_scan(*registry, registry.types@.len()) is Ok
                && v@.len() == registry.types@.len()
                && render_scan(*registry, registry.types@.len())->Ok_0.len() == v@.len()
                && forall|k: int|
                0 <= k < v@.len() ==> #[trigger] v@[k]@ == render_scan(
                    *registry,
                    registry.types@.len(),
                )->Ok_0[k],
            Err(e) => render_scan(*registry, registry.types@.len()) == Err::<
                Seq<Seq<char>>,
                DecodeError,
            >(e),
        },
{
    let mut out: Vec<String> = Vec::new();
    let ghost acc: Seq<Seq<char>> = seq![];
    let mut i: usize = 0;
    while i < registry.types.len()
        invariant
            i <= registry.types@.len() <= u32::MAX,
            out@.len() == i,
            acc.len() == i,
            render_scan(*registry, i as nat) == Ok::<Seq<Seq<char>>, DecodeError>(acc),
            forall|k: int| 0 <= k < i ==> #[trigger] out@[k]@ == acc[k],
        decreases registry.types@.len() - i,
    {
        match render(registry, i as u32) {
            Err(e) => {
                proof {
                    lemma_render_scan_err(*registry, (i + 1) as nat, registry.types@.len());
                }
                return Err(e);
            },
            Ok(s) => {
                proof {
                    acc = acc.push(s@);
                }
                out.push(s);
            },
        }
        i += 1;
    }
    Ok(out)
}

proof fn lemma_render_scan_err(reg: Registry, i: nat, n: nat)
    requires
        i <= n,
        render_scan(reg, i) is Err,
    ensures
        render_scan(reg, n) == render_scan(reg, i),
    decreases n - i,
{
    if i < n {
        lemma_render_scan_err(reg, i + 1, n);
    }
}

/// Fills `type_string_to_index` from `registry`: first each primitive entry
/// under its name, until every primitive kind has been mapped, then every entry under
/// its canonical string, so that later entries win. When some entry cannot
/// be rendered the index is left as it was and the first failure is
/// returned.
pub fn fill_memo_using_well_known_types(
    type_string_to_index: &mut TypeIndex,
    registry: &Registry,
) -> (r: Result<(), DecodeError>)
    requires
        registry.types@.len() <= u32::MAX,
    ensures
        match r {
            Ok(()) => render_scan(*registry, registry.types@.len()) is Ok
                && final(type_string_to_index)@ == old(type_string_to_index)@ + primed_log(*registry) + pairs(
                render_scan(*registry, registry.types@.len())->Ok_0,
            ),
            Err(e) => render_scan(*registry, registry.types@.len()) == Err::<
                Seq<Seq<char>>,
                DecodeError,
            >(e) && final(type_string_to_index)@ == old(type_string_to_index)@,
        },
{
    let names = render_all(registry)?;
    let ghost start = type_string_to_index@;
    let ghost names_v = render_scan(*registry, registry.types@.len())->Ok_0;
    let n = registry.types.len();
    let mut seen: Vec<bool> = Vec::new();
    let mut f: usize = 0;
    while f < PRIMITIVE_KINDS
        invariant
            f <= PRIMITIVE_KINDS,
            seen@ == Seq::new(f as nat, |_j: int| false),
        decreases PRIMITIVE_KINDS - f,
    {
        seen.push(false);
        f += 1;
        assert(seen@ =~= Seq::new(f as nat, |_j: int| false));
    }
    let mut count: usize = 0;
    let mut i: usize = 0;
    proof {
        lemma_count_zero(seen@);
    }
    assert(start + seq![] =~= start);
    while i < n && count < PRIMITIVE_KINDS
        invariant
            n == registry.types@.len(),
            i <= n,
            n <= u32::MAX,
            seen@.len() == PRIMITIVE_KINDS,
            count == count_set(seen@),
            type_string_to_index@ + prime_log(*registry, i as nat, seen@) == start
                + primed_log(*registry),
        decreases n - i,
    {
        proof {
            lemma_count_set_full(seen@);
        }
        let ghost before = type_string_to_index@;
        let ghost seen_before = seen@;
        match &registry.types[i].def {
            TypeDef::Primitive(k) => {
                type_string_to_index.insert(primitive_to_type_string(k), i as u32);
                let idx = primitive_index(k);
                if !seen[idx] {
                    proof {
                        lemma_count_set_update(seen@, idx as int);
                    }
                    seen.set(idx, true);
                    count += 1;
                } else {
                    assert(seen@.update(idx as int, true) =~= seen@);
                }
                assert(before + prime_log(*registry, i as nat, seen_before) =~= type_string_to_index@
                    + prime_log(*registry, (i + 1) as nat, seen@));
            },
            _ => {},
        }
        i += 1;
    }
    proof {
        lemma_count_set_full(seen@);
    }
    assert(prime_log(*registry, i as nat, seen@) =~= seq![]);
    assert(type_string_to_index@ =~= start + primed_log(*registry));
    let ghost primed = type_string_to_index@;
    let mut j: usize = 0;
    while j < n
        invariant
            n == registry.types@.len(),
            n <= u32::MAX,
            j <= n,
            names@.len() == n,
            names_v.len() == n,
            forall|k: int| 0 <= k < n ==> #[trigger] names@[k]@ == names_v[k],
            type_string_to_index@ == primed + pairs(names_v).take(j as int),
        decreases n - j,
    {
        let key = names[j].clone();
        type_string_to_index.insert(key, j as u32);
        assert(pairs(names_v).take(j + 1) =~= pairs(names_v).take(j as int).push(
            (names_v[j as int], j as u32),
        ));
        j += 1;
    }
    assert(pairs(names_v).take(n as int) =~= pairs(names_v));
    Ok(())
}

/// The id that the index maps `type_string` to, by exact match; `None` when
/// the string is not known. The index is not changed.
pub fn get_type_id_from_type_string(memo: &TypeIndex, type_string: &str) -> (r: Option<u32>)
    ensures
        r == lookup_in(memo@, type_string@),
{
    memo.lookup(type_string)
}

proof fn lemma_render_scan_entries(reg: Registry, n: nat)
    requires
        render_scan(reg, n) is Ok,
    ensures
        render_scan(reg, n)->Ok_0.len() == n,
        forall|i: int|
            0 <= i < n ==> rendered(reg, i as u32, MAX_DEPTH as nat) == Ok::<
                Seq<char>,
                DecodeError,
            >(#[trigger] render_scan(reg, n)->Ok_0[i]),
    decreases n,
{
    if n > 0 {
        lemma_render_scan_entries(reg, (n - 1) as nat);
    }
}

proof fn lemma_lookup_append(a: Seq<(Seq<char>, u32)>, b: Seq<(Seq<char>, u32)>, key: Seq<char>)
    requires
        lookup_in(b, key) is Some,
    ensures
        lookup_in(a + b, key) == lookup_in(b, key),
    decreases b.len(),
{
    assert((a + b).drop_last() =~= a + b.drop_last());
    if b.last().0 != key {
        lemma_lookup_append(a, b.drop_last(), key);
    }
}

proof fn lemma_lookup_pairs(names: Seq<Seq<char>>, n: int, key: Seq<char>)
    requires
        0 <= n <= names.len() <= u32::MAX,
    ensures
        (exists|i: int| 0 <= i < n && names[i] == key) ==> lookup_in(pairs(names).take(n), key) is Some,
        lookup_in(pairs(names).take(n), key) is Some ==> {
            let j = lookup_in(pairs(names).take(n), key)->0 as int;
            &&& 0 <= j < n
            &&& names[j] == key
            &&& forall|k: int| j < k < n ==> names[k] != key
        },
    decreases n,
{
    if n > 0 {
        let t = pairs(names).take(n);
        assert(t.drop_last() =~= pairs(names).take(n - 1));
        lemma_lookup_pairs(names, n - 1, key);
        if names[n - 1] != key {
            if exists|i: int| 0 <= i < n && names[i] == key {
                let i = choose|i: int| 0 <= i < n && names[i] == key;
                assert(0 <= i < n - 1 && names[i] == key);
            }
        }
    }
}

/// Once an index is filled from a registry whose entries all render, looking
/// up the canonical string of any entry finds an entry with that same string:
/// the last one that has it. So it finds the entry itself unless a later
/// entry shares its string.
pub proof fn lemma_resolver_correct(reg: Registry, before: Seq<(Seq<char>, u32)>, id: int)
    requires
        reg.types@.len() <= u32::MAX,
        0 <= id < reg.types@.len(),
        render_scan(reg, reg.types@.len()) is Ok,
    ensures
        ({
            let names = render_scan(reg, reg.types@.len())->Ok_0;
            let log = before + primed_log(reg) + pairs(names);
            &&& rendered(reg, id as u32, MAX_DEPTH as nat) == Ok::<Seq<char>, DecodeError>(names[id])
            &&& lookup_in(log, names[id]) is Some
            &&& id <= lookup_in(log, names[id])->0 < reg.types@.len()
            &&& names[lookup_in(log, names[id])->0 as int] == names[id]
            &&& forall|k: int|
                lookup_in(log, names[id])->0 < k < reg.types@.len() ==> names[k] != names[id]
            &&& (forall|k: int| id < k < reg.types@.len() ==> names[k] != names[id]) ==> lookup_in(
                log,
                names[id],
            ) == Some(id as u32)
        }),
{
    let n = reg.types@.len();
    lemma_render_scan_entries(reg, n);
    let names = render_scan(reg, n)->Ok_0;
    let key = names[id];
    assert(pairs(names).take(n as int) =~= pairs(names));
    lemma_lookup_pairs(names, n as int, key);
    assert(0 <= id < n && names[id] == key);
    lemma_lookup_append(before + primed_log(reg), pairs(names), key);
    let j = lookup_in(pairs(names), key)->0 as int;
    if j < id {
        assert(names[id] == key);
    }
}

/// The position of the first `c` in `s`, or `s.len()` when there is none.
pub open spec fn first_pos(s: Seq<char>, c: char) -> int
    decreases s.len(),
{
    if s.len() == 0 {
        0
    } else if s[0] == c {
        0
    } else {
        1 + first_pos(s.drop_first(), c)
    }
}

proof fn lemma_first_pos(s: Seq<char>, c: char, i: int)
    requires
        0 <= i <= s.len(),
        forall|j: int| 0 <= j < i ==> s[j] != c,
    ensures
        first_pos(s, c) == i + first_pos(s.skip(i), c),
    decreases i,
{
    if i > 0 {
        lemma_first_pos(s.drop_first(), c, i - 1);
        assert(s.drop_first().skip(i - 1) =~= s.skip(i));
    } else {
        assert(s.skip(0) =~= s);
    }
}

/// The opening bracket that pairs with a closing one.
pub open spec fn opening_of(c: char) -> char {
    if c == '>' {
        '<'
    } else if c == ')' {
        '('
    } else {
        '['
    }
}

/// The text inside the outer brackets of a type string that ends in `>`,
/// `)` or `]`: from just after the first opening bracket of that kind to
/// just before the last character. `u8` for `Vec<u8>`, `u8; 4` for
/// `[u8; 4]`, `a, b` for `(a, b)`.
pub fn get_inner_string(type_string: &str) -> (r: &str)
    requires
        type_string@.len() >= 1,
        type_string@.last() == '>' || type_string@.last() == ')' || type_string@.last() == ']',
        first_pos(type_string@, opening_of(type_string@.last())) < type_string@.len() - 1,
    ensures
        r@ == type_string@.subrange(
            first_pos(type_string@, opening_of(type_string@.last())) + 1,
            type_string@.len() - 1,
        ),
{
    let n = type_string.unicode_len();
    let bracket_char = type_string.get_char(n - 1);
    let open = if bracket_char == '>' {
        '<'
    } else if bracket_char == ')' {
        '('
    } else {
        '['
    };
    let mut start: usize = 0;
    while start < n && type_string.get_char(start) != open
        invariant
            n == type_string@.len(),
            open == opening_of(type_string@.last()),
            start <= n,
            forall|j: int| 0 <= j < start ==> type_string@[j] != open,
        decreases n - start,
    {
        start += 1;
    }
    proof {
        lemma_first_pos(type_string@, open, start as int);
        if start < n {
            assert(type_string@.skip(start as int)[0] == open);
        } else {
            assert(type_string@.skip(start as int).len() == 0);
        }
    }
    type_string.substring_char(start + 1, n - 1)
}

} // verus!
