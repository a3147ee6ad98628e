use vstd::prelude::*;
use vstd::utf8::encode_utf8;

use crate::error::FilterError;
use crate::external::{base58_decode_onto_32, base58_decoded_len_32};
use crate::update::strings_view;

verus! {

pub const MAX_NAMED_FILTERS: usize = 16;

pub const MAX_KEYS_PER_FILTER: usize = 1000;

/// One named filter of a subscription: the accounts a transaction must
/// reference at least one of (`included`), none of (`excluded`) and all of
/// (`required`). An empty list adds no constraint.
#[derive(Debug, Default, PartialEq, Eq)]
pub struct Filter {
    pub(crate) included: Vec<String>,
    pub(crate) excluded: Vec<String>,
    pub(crate) required: Vec<String>,
}

/// A filter's three lists, as text.
#[verifier::ext_equal]
pub struct FilterView {
    pub included: Seq<Seq<char>>,
    pub excluded: Seq<Seq<char>>,
    pub required: Seq<Seq<char>>,
}

impl FilterView {
    /// How many keys the filter holds in all.
    pub open spec fn key_count(self) -> nat {
        self.included.len() + self.excluded.len() + self.required.len()
    }
}

/// A filter without constraints.
pub open spec fn unconstrained() -> FilterView {
    FilterView { included: Seq::empty(), excluded: Seq::empty(), required: Seq::empty() }
}

impl View for Filter {
    type V = FilterView;

    closed spec fn view(&self) -> FilterView {
        FilterView {
            included: strings_view(self.included@),
            excluded: strings_view(self.excluded@),
            required: strings_view(self.required@),
        }
    }
}

/// A key is valid when it is base58 text of exactly 32 bytes.
pub open spec fn valid_key(key: Seq<char>) -> bool {
    base58_decoded_len_32(key) == Some(32usize)
}

/// The first key of the list that is not valid.
pub open spec fn first_invalid_key(keys: Seq<Seq<char>>) -> Option<Seq<char>>
    decreases keys.len(),
{
    if keys.len() == 0 {
        None
    } else {
        match first_invalid_key(keys.drop_last()) {
            Some(k) => Some(k),
            None => if valid_key(keys.last()) {
                None
            } else {
                Some(keys.last())
            },
        }
    }
}

proof fn lemma_first_invalid_prefix(keys: Seq<Seq<char>>, m: int, n: int)
    requires
        0 <= m <= n <= keys.len(),
        first_invalid_key(keys.take(m)) is Some,
    ensures
        first_invalid_key(keys.take(n)) == first_invalid_key(keys.take(m)),
    decreases n - m,
{
    if m < n {
        lemma_first_invalid_prefix(keys, m, n - 1);
        assert(keys.take(n).drop_last() =~= keys.take(n - 1));
    }
}

/// What becomes of a key once its base58 text was decoded into 32 bytes:
/// the key is accepted when the decoder produced exactly 32 bytes, refused
/// otherwise (a decoding error, or fewer bytes).
pub fn judge_key(key: String, decoded_len: Option<usize>) -> (r: Result<String, FilterError>)
    ensures
        decoded_len == Some(32usize) ==> r == Ok::<String, FilterError>(key),
        decoded_len != Some(32usize) ==> r == Err::<String, FilterError>(
            FilterError::InvalidKey(key),
        ),
{
    match decoded_len {
        Some(32) => Ok(key),
        _ => Err(FilterError::InvalidKey(key)),
    }
}

/// Checks that every key is a base58-encoded 32-byte public key.
fn validate_keys(keys: Vec<String>) -> (r: Result<Vec<String>, FilterError>)
    ensures
        match first_invalid_key(strings_view(keys@)) {
            None => r matches Ok(v) && v@ == keys@,
            Some(bad) => r matches Err(FilterError::InvalidKey(s)) && s@ == bad,
        },
{
    let mut out: Vec<String> = Vec::new();
    let mut i: usize = 0;
    while i < keys.len()
        invariant
            i <= keys@.len(),
            out@ == keys@.take(i as int),
            first_invalid_key(strings_view(keys@).take(i as int)) is None,
        decreases keys@.len() - i,
    {
        let key = keys[i].clone();
        let mut buf = [0u8; 32];
        let decoded = match base58_decode_onto_32(key.as_str(), &mut buf) {
            Ok(n) => Some(n),
            Err(_) => None,
        };
        proof {
            assert(strings_view(keys@).take(i + 1).drop_last() =~= strings_view(keys@).take(
                i as int,
            ));
        }
        match judge_key(key, decoded) {
            Ok(k) => {
                out.push(k);
                assert(out@ =~= keys@.take(i + 1));
            },
            Err(e) => {
                proof {
                    lemma_first_invalid_prefix(
                        strings_view(keys@),
                        i + 1,
                        strings_view(keys@).len() as int,
                    );
                    assert(strings_view(keys@).take(strings_view(keys@).len() as int)
                        =~= strings_view(keys@));
                }
                return Err(e);
            },
        }
        i = i + 1;
    }
    assert(strings_view(keys@).take(i as int) =~= strings_view(keys@));
    assert(out@ =~= keys@);
    Ok(out)
}

/// Refuses a filter holding more keys than one filter may.
fn check_len(key_count: usize) -> (r: Result<(), FilterError>)
    ensures
        key_count <= MAX_KEYS_PER_FILTER ==> r is Ok,
        key_count > MAX_KEYS_PER_FILTER ==> (r matches Err(FilterError::TooManyKeys(n, c))
            && n@ == Seq::<char>::empty() && c == key_count),
{
    if key_count > MAX_KEYS_PER_FILTER {
        return Err(FilterError::TooManyKeys(String::new(), key_count));
    }
    Ok(())
}

/// The same keys in each list are the same strings.
fn clone_keys(keys: &Vec<String>) -> (r: Vec<String>)
    ensures
        r@ == keys@,
{
    let r = keys.clone();
    assert(r@ =~= keys@);
    r
}

impl Clone for Filter {
    fn clone(&self) -> (r: Filter)
        ensures
            r@ == self@,
    {
        proof {
            use_type_invariant(self);
        }
        Filter {
            included: clone_keys(&self.included),
            excluded: clone_keys(&self.excluded),
            required: clone_keys(&self.required),
        }
    }
}

/// Which list of a filter keys are added to.
enum KeyList {
    Included,
    Exclude,
    Required,
}

impl Filter {
    /// A filter never holds more keys than one filter may.
    #[verifier::type_invariant]
    closed spec fn within_key_limit(&self) -> bool {
        self.included@.len() + self.excluded@.len() + self.required@.len() <= MAX_KEYS_PER_FILTER
    }

    /// A filter without constraints, which matches everything.
    pub fn all() -> (r: Filter)
        ensures
            r@ == unconstrained(),
    {
        Filter::new()
    }

    /// A filter without constraints, to which lists are then added.
    pub fn new() -> (r: Filter)
        ensures
            r@ == unconstrained(),
    {
        let r = Filter { included: Vec::new(), excluded: Vec::new(), required: Vec::new() };
        assert(r@ =~= unconstrained());
        r
    }

    /// How many keys the filter holds in all.
    pub(crate) fn key_count(&self) -> (r: usize)
        ensures
            r == self@.key_count(),
            r <= MAX_KEYS_PER_FILTER,
    {
        proof {
            use_type_invariant(self);
        }
        self.included.len() + self.excluded.len() + self.required.len()
    }

    fn add_keys(self, list: KeyList, keys: Vec<String>) -> (r: Result<Filter, FilterError>)
        requires
            keys@.len() <= isize::MAX,
        ensures
            match first_invalid_key(strings_view(keys@)) {
                Some(bad) => r matches Err(FilterError::InvalidKey(s)) && s@ == bad,
                None => if self@.key_count() + keys@.len() <= MAX_KEYS_PER_FILTER {
                    r matches Ok(f) && f@ == (match list {
                        KeyList::Included => FilterView {
                            included: self@.included + strings_view(keys@),
                            ..self@
                        },
                        KeyList::Exclude => FilterView {
                            excluded: self@.excluded + strings_view(keys@),
                            ..self@
                        },
                        KeyList::Required => FilterView {
                            required: self@.required + strings_view(keys@),
                            ..self@
                        },
                    })
                } else {
                    r matches Err(FilterError::TooManyKeys(n, c)) && n@ == Seq::<char>::empty() && c
                        == self@.key_count() + keys@.len()
                },
            },
    {
        let mut valid = validate_keys(keys)?;
        let count = self.key_count();
        check_len(count + valid.len())?;
        let Filter { mut included, mut excluded, mut required } = self;
        let ghost (i0, e0, r0) = (included@, excluded@, required@);
        match list {
            KeyList::Included => included.append(&mut valid),
            KeyList::Exclude => excluded.append(&mut valid),
            KeyList::Required => required.append(&mut valid),
        }
        proof {
            assert(strings_view(i0 + keys@) =~= strings_view(i0) + strings_view(keys@));
            assert(strings_view(e0 + keys@) =~= strings_view(e0) + strings_view(keys@));
            assert(strings_view(r0 + keys@) =~= strings_view(r0) + strings_view(keys@));
        }
        Ok(Filter { included, excluded, required })
    }

    /// Adds keys that a transaction must reference at least one of, each
    /// checked to be a base58-encoded 32-byte public key.
    pub fn include_keys(self, keys: Vec<String>) -> (r: Result<Filter, FilterError>)
        requires
            keys@.len() <= isize::MAX,
        ensures
            match first_invalid_key(strings_view(keys@)) {
                Some(bad) => r matches Err(FilterError::InvalidKey(s)) && s@ == bad,
                None => if self@.key_count() + keys@.len() <= MAX_KEYS_PER_FILTER {
                    r matches Ok(f) && f@ == FilterView {
                        included: self@.included + strings_view(keys@),
                        ..self@
                    }
                } else {
                    r matches Err(FilterError::TooManyKeys(n, c)) && n@ == Seq::<char>::empty() && c
                        == self@.key_count() + keys@.len()
                },
            },
    {
        self.add_keys(KeyList::Included, keys)
    }

    /// Adds keys that a transaction must reference none of, each checked to
    /// be a base58-encoded 32-byte public key.
    pub fn exclude(self, keys: Vec<String>) -> (r: Result<Filter, FilterError>)
        requires
            keys@.len() <= isize::MAX,
        ensures
            match first_invalid_key(strings_view(keys@)) {
                Some(bad) => r matches Err(FilterError::InvalidKey(s)) && s@ == bad,
                None => if self@.key_count() + keys@.len() <= MAX_KEYS_PER_FILTER {
                    r matches Ok(f) && f@ == FilterView {
                        excluded: self@.excluded + strings_view(keys@),
                        ..self@
                    }
                } else {
                    r matches Err(FilterError::TooManyKeys(n, c)) && n@ == Seq::<char>::empty() && c
                        == self@.key_count() + keys@.len()
                },
            },
    {
        self.add_keys(KeyList::Exclude, keys)
    }

    /// Adds keys that a transaction must reference all of, each checked to
    /// be a base58-encoded 32-byte public key.
    pub fn required(self, keys: Vec<String>) -> (r: Result<Filter, FilterError>)
        requires
            keys@.len() <= isize::MAX,
        ensures
            match first_invalid_key(strings_view(keys@)) {
                Some(bad) => r matches Err(FilterError::InvalidKey(s)) && s@ == bad,
                None => if self@.key_count() + keys@.len() <= MAX_KEYS_PER_FILTER {
                    r matches Ok(f) && f@ == FilterView {
                        required: self@.required + strings_view(keys@),
                        ..self@
                    }
                } else {
                    r matches Err(FilterError::TooManyKeys(n, c)) && n@ == Seq::<char>::empty() && c
                        == self@.key_count() + keys@.len()
                },
            },
    {
        self.add_keys(KeyList::Required, keys)
    }
}

/// Byte-wise lexicographic order, the order of `String`'s `Ord`.
pub open spec fn bytes_less(a: Seq<u8>, b: Seq<u8>) -> bool
    decreases a.len(),
{
    if a.len() == 0 {
        b.len() > 0
    } else if b.len() == 0 {
        false
    } else if a[0] != b[0] {
        a[0] < b[0]
    } else {
        bytes_less(a.drop_first(), b.drop_first())
    }
}

proof fn lemma_less_irreflexive(a: Seq<u8>)
    ensures
        !bytes_less(a, a),
    decreases a.len(),
{
    if a.len() > 0 {
        lemma_less_irreflexive(a.drop_first());
    }
}

proof fn lemma_less_transitive(a: Seq<u8>, b: Seq<u8>, c: Seq<u8>)
    requires
        bytes_less(a, b),
        bytes_less(b, c),
    ensures
        bytes_less(a, c),
    decreases a.len(),
{
    if a.len() > 0 && b.len() > 0 && c.len() > 0 && a[0] == b[0] && b[0] == c[0] {
        lemma_less_transitive(a.drop_first(), b.drop_first(), c.drop_first());
    }
}

proof fn lemma_less_total(a: Seq<u8>, b: Seq<u8>)
    requires
        a != b,
    ensures
        bytes_less(a, b) || bytes_less(b, a),
    decreases a.len(),
{
    if a.len() == 0 {
        assert(b.len() != 0) by {
            if b.len() == 0 {
                assert(a =~= b);
            }
        }
    } else if b.len() > 0 && a[0] == b[0] {
        if a.drop_first() == b.drop_first() {
            assert(a.drop_first().len() == a.len() - 1);
            assert(b.drop_first().len() == b.len() - 1);
            assert(a.len() == b.len());
            assert(a =~= b) by {
                assert forall|i: int| 0 <= i < a.len() implies a[i] == b[i] by {
                    if i > 0 {
                        assert(a[i] == a.drop_first()[i - 1]);
                        assert(b[i] == b.drop_first()[i - 1]);
                    }
                }
            }
        } else {
            lemma_less_total(a.drop_first(), b.drop_first());
        }
    }
}

/// Compares two byte strings in lexicographic order.
fn less_bytes(a: &[u8], b: &[u8]) -> (r: bool)
    ensures
        r == bytes_less(a@, b@),
{
    let mut i: usize = 0;
    assert(a@.skip(0) =~= a@ && b@.skip(0) =~= b@);
    loop
        invariant
            i <= a@.len(),
            i <= b@.len(),
            bytes_less(a@, b@) == bytes_less(a@.skip(i as int), b@.skip(i as int)),
        decreases a@.len() - i,
    {
        if i == a.len() {
            return i < b.len();
        }
        if i == b.len() {
            return false;
        }
        if a[i] != b[i] {
            return a[i] < b[i];
        }
        assert(a@.skip(i as int).drop_first() =~= a@.skip(i + 1));
        assert(b@.skip(i as int).drop_first() =~= b@.skip(i + 1));
        i = i + 1;
    }
}

/// The named filters of a subscription. A transaction is delivered when it
/// matches at least one of them. Names are kept in byte-wise order, each at
/// most once.
#[derive(Debug, Default, PartialEq, Eq)]
pub struct Filters(pub(crate) Vec<(String, Filter)>);

/// The bytes by which a name is ordered.
pub open spec fn name_order(name: Seq<char>) -> Seq<u8> {
    encode_utf8(name)
}

/// The entries are in strictly increasing order of their names.
pub open spec fn sorted_entries(e: Seq<(String, Filter)>) -> bool {
    forall|i: int, j: int|
        #![trigger e[i], e[j]]
        0 <= i < j < e.len() ==> bytes_less(name_order(e[i].0@), name_order(e[j].0@))
}

pub open spec fn entry_names(e: Seq<(String, Filter)>) -> Seq<Seq<char>> {
    e.map_values(|p: (String, Filter)| p.0@)
}

/// The map from each name to its filter.
pub open spec fn entries_map(e: Seq<(String, Filter)>) -> Map<Seq<char>, FilterView> {
    Map::new(
        |k: Seq<char>| entry_names(e).contains(k),
        |k: Seq<char>| e[entry_names(e).index_of(k)].1@,
    )
}

proof fn lemma_sorted_unique(e: Seq<(String, Filter)>, i: int, j: int)
    requires
        sorted_entries(e),
        0 <= i < e.len(),
        0 <= j < e.len(),
        e[i].0@ == e[j].0@,
    ensures
        i == j,
{
    lemma_less_irreflexive(name_order(e[i].0@));
    if i < j {
        assert(bytes_less(name_order(e[i].0@), name_order(e[j].0@)));
    } else if j < i {
        assert(bytes_less(name_order(e[j].0@), name_order(e[i].0@)));
    }
}

proof fn lemma_entry_in_map(e: Seq<(String, Filter)>, j: int)
    requires
        sorted_entries(e),
        0 <= j < e.len(),
    ensures
        entries_map(e).dom().contains(e[j].0@),
        entries_map(e)[e[j].0@] == e[j].1@,
{
    let k = e[j].0@;
    assert(entry_names(e)[j] == k);
    let c = entry_names(e).index_of(k);
    assert(entry_names(e)[c] == k);
    lemma_sorted_unique(e, c, j);
}

proof fn lemma_map_len(e: Seq<(String, Filter)>)
    requires
        sorted_entries(e),
    ensures
        entries_map(e).dom().finite(),
        entries_map(e).len() == e.len(),
{
    let names = entry_names(e);
    assert(names.no_duplicates()) by {
        assert forall|i: int, j: int|
            0 <= i < names.len() && 0 <= j < names.len() && i != j implies names[i]
            != names[j] by {
            if names[i] == names[j] {
                lemma_sorted_unique(e, i, j);
            }
        }
    }
    names.unique_seq_to_set();
    assert(entries_map(e).dom() =~= names.to_set());
}

impl View for Filters {
    type V = Map<Seq<char>, FilterView>;

    /// The filter of each name.
    closed spec fn view(&self) -> Map<Seq<char>, FilterView> {
        entries_map(self.0@)
    }
}

impl Filters {
    /// Names are in strictly increasing byte-wise order.
    #[verifier::type_invariant]
    closed spec fn names_in_order(&self) -> bool {
        sorted_entries(self.0@)
    }


    /// No named filter.
    pub fn new() -> (r: Filters)
        ensures
            r@ == Map::<Seq<char>, FilterView>::empty(),
            r@.dom().finite(),
    {
        let r = Filters(Vec::new());
        assert(r@ =~= Map::<Seq<char>, FilterView>::empty());
        r
    }

    /// Adds one named filter, replacing any filter of the same name.
    pub fn add(self, name: String, filter: Filter) -> (r: Filters)
        ensures
            r@ == self@.insert(name@, filter@),
            r@.dom().finite(),
    {
        proof {
            use_type_invariant(&self);
            lemma_map_len(self.0@);
        }
        let Filters(mut entries) = self;
        let ghost e0 = entries@;
        let key = name.as_str().as_bytes();
        let n = entries.len();
        let mut i: usize = 0;
        while i < n
            invariant
                n == entries@.len(),
                entries@ == e0,
                key@ == name_order(name@),
                i <= n,
                forall|k: int| 0 <= k < i ==> bytes_less(name_order(#[trigger] e0[k].0@), key@),
            ensures
                i <= n,
                i < n ==> !bytes_less(name_order(e0[i as int].0@), key@),
            decreases n - i,
        {
            let here = entries[i].0.as_str().as_bytes();
            if !less_bytes(here, key) {
                break;
            }
            i = i + 1;
        }
        if i < n && entries[i].0 == name {
            let ghost old_entry = e0[i as int];
            entries[i] = (name, filter);
            let ghost e1 = entries@;
            proof {
                assert(e1 =~= e0.update(i as int, (name, filter)));
                assert(sorted_entries(e1)) by {
                    assert forall|a: int, b: int|
                        #![trigger e1[a], e1[b]]
                        0 <= a < b < e1.len() implies bytes_less(
                        name_order(e1[a].0@),
                        name_order(e1[b].0@),
                    ) by {
                        assert(e0[a].0@ == e1[a].0@);
                        assert(e0[b].0@ == e1[b].0@);
                    }
                }
                let m1 = entries_map(e1);
                let m2 = entries_map(e0).insert(name@, filter@);
                assert forall|k: Seq<char>| #[trigger] m1.dom().contains(k) implies m2.dom().contains(
                    k,
                ) && m1[k] == m2[k] by {
                    let j = entry_names(e1).index_of(k);
                    assert(entry_names(e1)[j] == k);
                    lemma_entry_in_map(e1, j);
                    if j != i {
                        assert(e1[j] == e0[j]);
                        lemma_entry_in_map(e0, j);
                        if k == name@ {
                            lemma_sorted_unique(e1, j, i as int);
                        }
                    }
                }
                assert forall|k: Seq<char>| #[trigger] m2.dom().contains(k) implies m1.dom().contains(
                    k,
                ) by {
                    if k == name@ {
                        lemma_entry_in_map(e1, i as int);
                    } else {
                        let j = entry_names(e0).index_of(k);
                        assert(entry_names(e0)[j] == k);
                        assert(e1[j] == e0[j]);
                        lemma_entry_in_map(e1, j);
                    }
                }
                assert(m1 =~= m2);
            }
            Filters(entries)
        } else {
            entries.insert(i, (name, filter));
            let ghost e1 = entries@;
            proof {
                assert(e1 =~= e0.insert(i as int, (name, filter)));
                if i < n {
                    let here = name_order(e0[i as int].0@);
                    if here == key@ {
                        vstd::utf8::encode_utf8_decode_utf8(e0[i as int].0@);
                        vstd::utf8::encode_utf8_decode_utf8(name@);
                        assert(e0[i as int].0@ == name@);
                    }
                    lemma_less_total(here, key@);
                    assert(bytes_less(key@, here));
                }
                assert(sorted_entries(e1)) by {
                    assert forall|a: int, b: int|
                        #![trigger e1[a], e1[b]]
                        0 <= a < b < e1.len() implies bytes_less(
                        name_order(e1[a].0@),
                        name_order(e1[b].0@),
                    ) by {
                        if b < i {
                            assert(e1[a] == e0[a] && e1[b] == e0[b]);
                        } else if b == i {
                            assert(e1[a] == e0[a]);
                        } else if a == i {
                            assert(e1[b] == e0[b - 1]);
                            if b - 1 > i {
                                assert(bytes_less(
                                    name_order(e0[i as int].0@),
                                    name_order(e0[b - 1].0@),
                                ));
                                lemma_less_transitive(
                                    key@,
                                    name_order(e0[i as int].0@),
                                    name_order(e0[b - 1].0@),
                                );
                            }
                        } else if a < i {
                            assert(e1[a] == e0[a] && e1[b] == e0[b - 1]);
                        } else {
                            assert(e1[a] == e0[a - 1] && e1[b] == e0[b - 1]);
                        }
                    }
                }
                let m1 = entries_map(e1);
                let m2 = entries_map(e0).insert(name@, filter@);
                assert forall|k: Seq<char>| #[trigger] m1.dom().contains(k) implies m2.dom().contains(
                    k,
                ) && m1[k] == m2[k] by {
                    let j = entry_names(e1).index_of(k);
                    assert(entry_names(e1)[j] == k);
                    lemma_entry_in_map(e1, j);
                    if j < i {
                        assert(e1[j] == e0[j]);
                        lemma_entry_in_map(e0, j);
                        if k == name@ {
                            lemma_sorted_unique(e1, j, i as int);
                        }
                    } else if j > i {
                        assert(e1[j] == e0[j - 1]);
                        lemma_entry_in_map(e0, j - 1);
                        if k == name@ {
                            lemma_sorted_unique(e1, j, i as int);
                        }
                    }
                }
                assert forall|k: Seq<char>| #[trigger] m2.dom().contains(k) implies m1.dom().contains(
                    k,
                ) by {
                    if k == name@ {
                        lemma_entry_in_map(e1, i as int);
                    } else {
                        let j = entry_names(e0).index_of(k);
                        assert(entry_names(e0)[j] == k);
                        if j < i {
                            assert(e1[j] == e0[j]);
                            lemma_entry_in_map(e1, j);
                        } else {
                            assert(e1[j + 1] == e0[j]);
                            lemma_entry_in_map(e1, j + 1);
                        }
                    }
                }
                assert(m1 =~= m2);
            }
            Filters(entries)
        }
    }

    /// How many named filters there are.
    pub fn len(&self) -> (r: usize)
        ensures
            r == self@.len(),
            self@.dom().finite(),
    {
        proof {
            use_type_invariant(self);
            lemma_map_len(self.0@);
        }
        self.0.len()
    }

    /// Whether there is no named filter.
    pub fn is_empty(&self) -> (r: bool)
        ensures
            r == (self@.len() == 0),
    {
        proof {
            use_type_invariant(self);
            lemma_map_len(self.0@);
        }
        self.0.len() == 0
    }

    /// Checks the map before it is sent: refused when it holds no filter,
    /// which would deliver nothing, or more than 16 named filters. Each
    /// filter already holds at most 1000 keys.
    pub fn validate(&self) -> (r: Result<(), FilterError>)
        ensures
            self@.len() == 0 ==> r == Err::<(), FilterError>(FilterError::Empty),
            self@.len() > MAX_NAMED_FILTERS ==> r == Err::<(), FilterError>(
                FilterError::TooManyFilters(self@.len() as usize),
            ),
            0 < self@.len() <= MAX_NAMED_FILTERS ==> r is Ok,
            self@.dom().finite(),
            forall|name: Seq<char>|
                #[trigger] self@.dom().contains(name) ==> self@[name].key_count()
                    <= MAX_KEYS_PER_FILTER,
    {
        proof {
            use_type_invariant(self);
            lemma_map_len(self.0@);
        }
        let mut i: usize = 0;
        while i < self.0.len()
            invariant
                i <= self.0@.len(),
                forall|k: int| 0 <= k < i ==> (#[trigger] self.0@[k]).1@.key_count()
                    <= MAX_KEYS_PER_FILTER,
            decreases self.0@.len() - i,
        {
            let (name, f) = &self.0[i];
            let count = f.key_count();
            if count > MAX_KEYS_PER_FILTER {
                return Err(FilterError::TooManyKeys(name.clone(), count));
            }
            i = i + 1;
        }
        proof {
            assert forall|name: Seq<char>| #[trigger] self@.dom().contains(name) implies self@[
                name
            ].key_count() <= MAX_KEYS_PER_FILTER by {
                let j = entry_names(self.0@).index_of(name);
                assert(entry_names(self.0@)[j] == name);
                lemma_entry_in_map(self.0@, j);
                assert(self.0@[j].1@.key_count() <= MAX_KEYS_PER_FILTER);
            }
        }
        if self.0.len() == 0 {
            return Err(FilterError::Empty);
        }
        if self.0.len() > MAX_NAMED_FILTERS {
            return Err(FilterError::TooManyFilters(self.0.len()));
        }
        Ok(())
    }

    /// Every named filter, in byte-wise order of the names: what is sent on
    /// each subscription.
    pub fn entries(&self) -> (r: Vec<(String, Filter)>)
        ensures
            sorted_entries(r@),
            entries_map(r@) == self@,
            r@.len() == self@.len(),
    {
        proof {
            use_type_invariant(self);
            lemma_map_len(self.0@);
        }
        let mut r: Vec<(String, Filter)> = Vec::new();
        let mut i: usize = 0;
        while i < self.0.len()
            invariant
                i <= self.0@.len(),
                r@.len() == i,
                forall|k: int|
                    0 <= k < i ==> (#[trigger] r@[k]).0@ == self.0@[k].0@ && r@[k].1@ == self.0@[k].1@,
            decreases self.0@.len() - i,
        {
            let name = self.0[i].0.clone();
            let f = self.0[i].1.clone();
            r.push((name, f));
            i = i + 1;
        }
        proof {
            let e = self.0@;
            assert(entry_names(r@) =~= entry_names(e));
            assert(sorted_entries(r@)) by {
                assert forall|a: int, b: int|
                    #![trigger r@[a], r@[b]]
                    0 <= a < b < r@.len() implies bytes_less(
                    name_order(r@[a].0@),
                    name_order(r@[b].0@),
                ) by {
                    assert(bytes_less(name_order(e[a].0@), name_order(e[b].0@)));
                }
            }
            assert forall|k: Seq<char>| #[trigger] entries_map(r@).dom().contains(k) implies entries_map(
                r@,
            )[k] == entries_map(e)[k] by {
                let j = entry_names(e).index_of(k);
                assert(r@[j].1@ == e[j].1@);
            }
            assert(entries_map(r@) =~= entries_map(e));
        }
        r
    }

    /// The map made of the given named filters; a later filter replaces an
    /// earlier one of the same name.
    pub fn from_pairs(pairs: Vec<(String, Filter)>) -> (r: Filters)
        ensures
            r@ == pairs_map(pairs@),
            r@.dom().finite(),
    {
        let mut r = Filters::new();
        let mut rest = pairs;
        let ghost all = rest@;
        let n = rest.len();
        let mut i: usize = 0;
        while i < n
            invariant
                n == all.len(),
                i <= n,
                rest@ == all.skip(i as int),
                r@ == pairs_map(all.take(i as int)),
                r@.dom().finite(),
            decreases n - i,
        {
            let (name, f) = rest.remove(0);
            proof {
                assert(all.take(i + 1).drop_last() =~= all.take(i as int));
                assert(all.take(i + 1).last() == all[i as int]);
            }
            r = r.add(name, f);
            i = i + 1;
            assert(rest@ =~= all.skip(i as int));
        }
        assert(all.take(n as int) =~= all);
        r
    }
}

/// The map of named filters that pairs given in order make, later pairs
/// replacing earlier ones of the same name.
pub open spec fn pairs_map(pairs: Seq<(String, Filter)>) -> Map<Seq<char>, FilterView>
    decreases pairs.len(),
{
    if pairs.len() == 0 {
        Map::empty()
    } else {
        pairs_map(pairs.drop_last()).insert(pairs.last().0@, pairs.last().1@)
    }
}

impl Clone for Filters {
    fn clone(&self) -> (r: Filters)
        ensures
            r@ == self@,
    {
        let mut r = Filters::new();
        let mut i: usize = 0;
        proof {
            use_type_invariant(self);
        }
        while i < self.0.len()
            invariant
                i <= self.0@.len(),
                sorted_entries(self.0@),
                r@ == entries_map(self.0@.take(i as int)),
            decreases self.0@.len() - i,
        {
            let name = self.0[i].0.clone();
            let f = self.0[i].1.clone();
            proof {
                let t = self.0@.take(i + 1);
                assert(sorted_entries(t));
                assert(sorted_entries(self.0@.take(i as int)));
                lemma_entries_map_push(self.0@.take(i as int), self.0@[i as int]);
                assert(self.0@.take(i as int).push(self.0@[i as int]) =~= t);
            }
            r = r.add(name, f);
            i = i + 1;
        }
        assert(self.0@.take(i as int) =~= self.0@);
        r
    }
}

proof fn lemma_entries_map_push(e: Seq<(String, Filter)>, x: (String, Filter))
    requires
        sorted_entries(e.push(x)),
    ensures
        entries_map(e.push(x)) == entries_map(e).insert(x.0@, x.1@),
{
    let e1 = e.push(x);
    assert(sorted_entries(e)) by {
        assert forall|a: int, b: int| #![trigger e[a], e[b]] 0 <= a < b < e.len() implies bytes_less(
            name_order(e[a].0@),
            name_order(e[b].0@),
        ) by {
            assert(e1[a] == e[a] && e1[b] == e[b]);
        }
    }
    let m1 = entries_map(e1);
    let m2 = entries_map(e).insert(x.0@, x.1@);
    let i = e.len() as int;
    assert forall|k: Seq<char>| #[trigger] m1.dom().contains(k) implies m2.dom().contains(k)
        && m1[k] == m2[k] by {
        let j = entry_names(e1).index_of(k);
        assert(entry_names(e1)[j] == k);
        lemma_entry_in_map(e1, j);
        if j < i {
            assert(e1[j] == e[j]);
            lemma_entry_in_map(e, j);
            if k == x.0@ {
                lemma_sorted_unique(e1, j, i);
            }
        }
    }
    assert forall|k: Seq<char>| #[trigger] m2.dom().contains(k) implies m1.dom().contains(k) by {
        if k == x.0@ {
            lemma_entry_in_map(e1, i);
        } else {
            let j = entry_names(e).index_of(k);
            assert(entry_names(e)[j] == k);
            assert(e1[j] == e[j]);
            lemma_entry_in_map(e1, j);
        }
    }
    assert(m1 =~= m2);
}

} // verus!
