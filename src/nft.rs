use vstd::prelude::*;

use crate::error::RegistryError;

verus! {

/// Abstract state of the ownership registry.
pub struct NftState {
    pub admin: Option<Seq<char>>,
    pub ipcm_contract: Option<Seq<char>>,
    /// Identifier to current holder; a key present denotes a live token.
    pub tokens: Map<Seq<char>, Seq<char>>,
    /// Identifier to its key in the mapping registry.
    pub ipcm_ref: Map<Seq<char>, Seq<char>>,
    /// Holder to the identifiers held, in the order they were received.
    pub owner_index: Map<Seq<char>, Seq<Seq<char>>>,
}

/// `s` with every occurrence of `t` taken out, the rest in order.
pub open spec fn without(s: Seq<Seq<char>>, t: Seq<char>) -> Seq<Seq<char>>
    decreases s.len(),
{
    if s.len() == 0 {
        s
    } else {
        let rest = without(s.drop_last(), t);
        if s.last() == t {
            rest
        } else {
            rest.push(s.last())
        }
    }
}

/// The identifiers listed for holder `h`; empty for one never listed.
pub open spec fn held_in(idx: Map<Seq<char>, Seq<Seq<char>>>, h: Seq<char>) -> Seq<Seq<char>> {
    if idx.contains_key(h) {
        idx[h]
    } else {
        Seq::empty()
    }
}

/// The error that an administrator-only call meets, if any.
pub open spec fn admin_check(
    admin: Option<Seq<char>>,
    caller: Seq<char>,
    authorized: bool,
) -> Option<RegistryError> {
    match admin {
        None => Some(RegistryError::NotInitialized),
        Some(a) => if caller != a {
            Some(RegistryError::NotAdmin)
        } else if !authorized {
            Some(RegistryError::NotAuthorized)
        } else {
            None
        },
    }
}

/// The error that a holder-only call on token `t` meets, if any.
pub open spec fn holder_check(
    tokens: Map<Seq<char>, Seq<char>>,
    t: Seq<char>,
    caller: Seq<char>,
    authorized: bool,
) -> Option<RegistryError> {
    if !tokens.contains_key(t) {
        Some(RegistryError::TokenNotFound)
    } else if tokens[t] != caller {
        Some(RegistryError::NotOwner)
    } else if !authorized {
        Some(RegistryError::NotAuthorized)
    } else {
        None
    }
}

impl NftState {
    /// What `tokens_of(h)` returns.
    pub open spec fn tokens_of(self, h: Seq<char>) -> Seq<Seq<char>> {
        held_in(self.owner_index, h)
    }

    /// The indexes agree: a token has a mapping key iff it exists, and each
    /// holder's list holds exactly the tokens of that holder, once each.
    pub open spec fn consistent(self) -> bool {
        &&& self.tokens.dom() == self.ipcm_ref.dom()
        &&& forall|h: Seq<char>| #[trigger]
            self.owner_index.contains_key(h) ==> self.owner_index[h].no_duplicates()
        &&& forall|h: Seq<char>, t: Seq<char>|
            self.owner_index.contains_key(h) ==> (#[trigger] self.owner_index[h].contains(t) <==> (
            self.tokens.contains_key(t) && self.tokens[t] == h))
        &&& forall|t: Seq<char>| #[trigger]
            self.tokens.contains_key(t) ==> self.owner_index.contains_key(self.tokens[t])
    }

    /// The state after minting `t` to holder `h` with mapping key `k`.
    pub open spec fn minted(self, t: Seq<char>, h: Seq<char>, k: Seq<char>) -> NftState {
        NftState {
            tokens: self.tokens.insert(t, h),
            ipcm_ref: self.ipcm_ref.insert(t, k),
            owner_index: self.owner_index.insert(h, held_in(self.owner_index, h).push(t)),
            ..self
        }
    }

    /// The state after moving token `t` from its holder to `to`: taken out of
    /// the holder's list, then appended to the list of `to`.
    pub open spec fn transferred(self, t: Seq<char>, to: Seq<char>) -> NftState {
        let from = self.tokens[t];
        let idx = self.owner_index.insert(from, without(held_in(self.owner_index, from), t));
        NftState {
            tokens: self.tokens.insert(t, to),
            owner_index: idx.insert(to, held_in(idx, to).push(t)),
            ..self
        }
    }

    /// The state after burning token `t`: purged from all three indexes.
    pub open spec fn burned(self, t: Seq<char>) -> NftState {
        let from = self.tokens[t];
        NftState {
            tokens: self.tokens.remove(t),
            ipcm_ref: self.ipcm_ref.remove(t),
            owner_index: self.owner_index.insert(from, without(held_in(self.owner_index, from), t)),
            ..self
        }
    }
}

/// An element is in `s.push(a)` iff it is in `s` or is `a`.
proof fn lemma_push_contains(s: Seq<Seq<char>>, a: Seq<char>)
    ensures
        forall|x: Seq<char>| #[trigger] s.push(a).contains(x) <==> (s.contains(x) || x == a),
{
    assert forall|x: Seq<char>| #[trigger] s.push(a).contains(x) <==> (s.contains(x) || x == a) by {
        if s.push(a).contains(x) {
            let i = choose|i: int| 0 <= i < s.push(a).len() && s.push(a)[i] == x;
            if i < s.len() {
                assert(s[i] == x);
            }
        }
        if s.contains(x) {
            let i = choose|i: int| 0 <= i < s.len() && s[i] == x;
            assert(s.push(a)[i] == x);
        }
        if x == a {
            assert(s.push(a)[s.len() as int] == x);
        }
    }
}

/// Pushing an element not yet present keeps a sequence free of duplicates.
proof fn lemma_push_no_dup(s: Seq<Seq<char>>, a: Seq<char>)
    requires
        s.no_duplicates(),
        !s.contains(a),
    ensures
        s.push(a).no_duplicates(),
{
    assert forall|i: int, j: int|
        0 <= i < s.push(a).len() && 0 <= j < s.push(a).len() && i != j implies s.push(a)[i]
        != s.push(a)[j] by {
        if i == s.len() {
            assert(s[j] == s.push(a)[j]);
        } else if j == s.len() {
            assert(s[i] == s.push(a)[i]);
        }
    }
}

/// An element is left in `without(s, t)` iff it was in `s` and is not `t`.
pub proof fn lemma_without_contains(s: Seq<Seq<char>>, t: Seq<char>)
    ensures
        forall|x: Seq<char>| #[trigger] without(s, t).contains(x) <==> (s.contains(x) && x != t),
    decreases s.len(),
{
    if s.len() > 0 {
        let p = s.drop_last();
        lemma_without_contains(p, t);
        assert(s == p.push(s.last()));
        lemma_push_contains(p, s.last());
        lemma_push_contains(without(p, t), s.last());
    }
}

/// Taking an element out keeps a sequence free of duplicates.
pub proof fn lemma_without_no_dup(s: Seq<Seq<char>>, t: Seq<char>)
    requires
        s.no_duplicates(),
    ensures
        without(s, t).no_duplicates(),
    decreases s.len(),
{
    if s.len() > 0 {
        let p = s.drop_last();
        assert(p.no_duplicates()) by {
            assert forall|i: int, j: int|
                0 <= i < p.len() && 0 <= j < p.len() && i != j implies p[i] != p[j] by {
                assert(p[i] == s[i] && p[j] == s[j]);
            }
        }
        lemma_without_no_dup(p, t);
        lemma_without_contains(p, t);
        if s.last() != t {
            assert(!p.contains(s.last())) by {
                if p.contains(s.last()) {
                    let i = choose|i: int| 0 <= i < p.len() && p[i] == s.last();
                    assert(s[i] == s[s.len() - 1]);
                }
            }
            lemma_push_no_dup(without(p, t), s.last());
        }
    }
}

/// Minting an identifier not in use keeps the indexes consistent.
pub proof fn lemma_mint_keeps_consistent(s: NftState, t: Seq<char>, h: Seq<char>, k: Seq<char>)
    requires
        s.consistent(),
        !s.tokens.contains_key(t),
    ensures
        s.minted(t, h, k).consistent(),
{
    let post = s.minted(t, h, k);
    let held = held_in(s.owner_index, h);
    lemma_push_contains(held, t);
    assert(!held.contains(t));
    if !s.owner_index.contains_key(h) {
        assert(held.no_duplicates());
    }
    lemma_push_no_dup(held, t);
    assert(post.tokens.dom() =~= post.ipcm_ref.dom());
    assert forall|g: Seq<char>, x: Seq<char>| post.owner_index.contains_key(g) implies (
    #[trigger] post.owner_index[g].contains(x) <==> (post.tokens.contains_key(x)
        && post.tokens[x] == g)) by {
        if g == h && !s.owner_index.contains_key(h) && s.tokens.contains_key(x) && s.tokens[x]
            == h {
            assert(s.owner_index.contains_key(s.tokens[x]));
        }
    }
}

/// Transferring a live token keeps the indexes consistent.
pub proof fn lemma_transfer_keeps_consistent(s: NftState, t: Seq<char>, to: Seq<char>)
    requires
        s.consistent(),
        s.tokens.contains_key(t),
    ensures
        s.transferred(t, to).consistent(),
{
    let post = s.transferred(t, to);
    let from = s.tokens[t];
    let removed = without(held_in(s.owner_index, from), t);
    let idx = s.owner_index.insert(from, removed);
    let target = held_in(idx, to);
    assert(s.owner_index.contains_key(from));
    lemma_without_contains(s.owner_index[from], t);
    lemma_without_no_dup(s.owner_index[from], t);
    lemma_push_contains(target, t);
    assert(!target.contains(t)) by {
        if to != from && s.owner_index.contains_key(to) {
            assert(s.owner_index[to].contains(t) ==> s.tokens[t] == to);
        }
    }
    if !idx.contains_key(to) {
        assert(target.no_duplicates());
    }
    lemma_push_no_dup(target, t);
    assert(post.tokens.dom() =~= post.ipcm_ref.dom());
    assert forall|g: Seq<char>, x: Seq<char>| post.owner_index.contains_key(g) implies (
    #[trigger] post.owner_index[g].contains(x) <==> (post.tokens.contains_key(x)
        && post.tokens[x] == g)) by {
        if g == to && !idx.contains_key(to) && s.tokens.contains_key(x) && x != t && s.tokens[x]
            == to {
            assert(s.owner_index.contains_key(s.tokens[x]));
        }
    }
}

/// Burning a live token keeps the indexes consistent.
pub proof fn lemma_burn_keeps_consistent(s: NftState, t: Seq<char>)
    requires
        s.consistent(),
        s.tokens.contains_key(t),
    ensures
        s.burned(t).consistent(),
{
    let post = s.burned(t);
    let from = s.tokens[t];
    assert(s.owner_index.contains_key(from));
    lemma_without_contains(s.owner_index[from], t);
    lemma_without_no_dup(s.owner_index[from], t);
    assert(post.tokens.dom() =~= post.ipcm_ref.dom());
}

/// A token is known to `owner_of`, to `get_ipcm_key` and to some holder's
/// `tokens_of` list, or to none of the three.
pub proof fn lemma_existence_consistent(s: NftState, t: Seq<char>)
    requires
        s.consistent(),
    ensures
        s.tokens.contains_key(t) <==> s.ipcm_ref.contains_key(t),
        s.tokens.contains_key(t) <==> exists|h: Seq<char>| #[trigger] s.tokens_of(h).contains(t),
{
    if s.tokens.contains_key(t) {
        assert(s.ipcm_ref.dom().contains(t));
        let h = s.tokens[t];
        assert(s.tokens_of(h).contains(t));
    }
    if s.ipcm_ref.contains_key(t) {
        assert(s.tokens.dom().contains(t));
    }
    if exists|h: Seq<char>| #[trigger] s.tokens_of(h).contains(t) {
        let h = choose|h: Seq<char>| #[trigger] s.tokens_of(h).contains(t);
        assert(s.owner_index.contains_key(h));
    }
}

/// Each holder's list is exactly the set of tokens that holder holds, with
/// no duplicates and no stale entries.
pub proof fn lemma_reverse_index_exact(s: NftState, h: Seq<char>)
    requires
        s.consistent(),
    ensures
        s.tokens_of(h).no_duplicates(),
        forall|t: Seq<char>| #[trigger]
            s.tokens_of(h).contains(t) <==> (s.tokens.contains_key(t) && s.tokens[t] == h),
{
    if !s.owner_index.contains_key(h) {
        assert(s.tokens_of(h).no_duplicates());
        assert forall|t: Seq<char>| #[trigger]
            s.tokens_of(h).contains(t) <==> (s.tokens.contains_key(t) && s.tokens[t] == h) by {
            if s.tokens.contains_key(t) && s.tokens[t] == h {
                assert(s.owner_index.contains_key(s.tokens[t]));
            }
        }
    }
}

/// The abstract identifiers of a list of strings.
pub open spec fn ids_view(v: Seq<String>) -> Seq<Seq<char>> {
    v.map_values(|s: String| s@)
}

/// One live token: its identifier, holder and mapping key.
struct TokenRecord {
    token_id: String,
    holder: String,
    ipcm_key: String,
}

/// One holder's list of identifiers.
struct Holding {
    holder: String,
    token_ids: Vec<String>,
}

/// Event published by a successful mint.
pub struct Minted {
    pub token_id: String,
    pub holder: String,
    pub ipcm_key: String,
}

/// Event published by a successful transfer.
pub struct Transferred {
    pub token_id: String,
    pub from: String,
    pub to: String,
}

/// Event published by a successful burn.
pub struct Burned {
    pub token_id: String,
    pub holder: String,
}

/// A copy of a list of identifiers.
fn copy_ids(ids: &Vec<String>) -> (r: Vec<String>)
    ensures
        r@ == ids@,
{
    let mut out: Vec<String> = Vec::new();
    let mut i: usize = 0;
    while i < ids.len()
        invariant
            i <= ids@.len(),
            out@ == ids@.take(i as int),
        decreases ids@.len() - i,
    {
        out.push(ids[i].clone());
        assert(out@ =~= ids@.take(i + 1));
        i = i + 1;
    }
    assert(ids@.take(ids@.len() as int) =~= ids@);
    out
}

/// `ids` with `t` taken out, the rest in order: a linear scan that rebuilds
/// the list.
fn without_id(ids: &Vec<String>, t: &String) -> (r: Vec<String>)
    ensures
        ids_view(r@) == without(ids_view(ids@), t@),
{
    let mut out: Vec<String> = Vec::new();
    let mut i: usize = 0;
    while i < ids.len()
        invariant
            i <= ids@.len(),
            ids_view(out@) == without(ids_view(ids@.take(i as int)), t@),
        decreases ids@.len() - i,
    {
        let ghost prefix = ids_view(ids@.take(i + 1));
        assert(prefix.drop_last() =~= ids_view(ids@.take(i as int)));
        assert(prefix.last() == ids@[i as int]@);
        if !(ids[i] == *t) {
            let ghost before = out@;
            out.push(ids[i].clone());
            assert(ids_view(out@) =~= ids_view(before).push(ids@[i as int]@));
        }
        i = i + 1;
    }
    assert(ids@.take(ids@.len() as int) =~= ids@);
    out
}

/// The ownership registry: an administrator and a mapping-registry address,
/// both set once, and three correlated indexes over the live tokens.
pub struct OctopusNFTContract {
    admin: Option<String>,
    ipcm_contract: Option<String>,
    records: Vec<TokenRecord>,
    holdings: Vec<Holding>,
    tokens: Ghost<Map<Seq<char>, Seq<char>>>,
    ipcm_ref: Ghost<Map<Seq<char>, Seq<char>>>,
    owner_index: Ghost<Map<Seq<char>, Seq<Seq<char>>>>,
}

/// The abstract value of an optional string.
pub open spec fn opt_view(o: Option<String>) -> Option<Seq<char>> {
    match o {
        Some(s) => Some(s@),
        None => None,
    }
}

impl View for OctopusNFTContract {
    type V = NftState;

    closed spec fn view(&self) -> NftState {
        NftState {
            admin: opt_view(self.admin),
            ipcm_contract: opt_view(self.ipcm_contract),
            tokens: self.tokens@,
            ipcm_ref: self.ipcm_ref@,
            owner_index: self.owner_index@,
        }
    }
}

impl OctopusNFTContract {
    /// The token records hold one record per live token and are exactly the
    /// holder and mapping-key indexes.
    closed spec fn records_wf(&self) -> bool {
        &&& forall|i: int, j: int|
            0 <= i < j < self.records@.len() ==> self.records@[i].token_id@
                != self.records@[j].token_id@
        &&& forall|i: int|
            0 <= i < self.records@.len() ==> self.tokens@.contains_key(
                #[trigger] self.records@[i].token_id@,
            ) && self.tokens@[self.records@[i].token_id@] == self.records@[i].holder@
                && self.ipcm_ref@.contains_key(self.records@[i].token_id@)
                && self.ipcm_ref@[self.records@[i].token_id@] == self.records@[i].ipcm_key@
        &&& forall|k: Seq<char>|
            #[trigger] self.tokens@.contains_key(k) ==> exists|i: int|
                0 <= i < self.records@.len() && self.records@[i].token_id@ == k
    }

    /// The holdings hold one list per holder and are exactly the reverse index.
    closed spec fn holdings_wf(&self) -> bool {
        &&& forall|i: int, j: int|
            0 <= i < j < self.holdings@.len() ==> self.holdings@[i].holder@
                != self.holdings@[j].holder@
        &&& forall|i: int|
            0 <= i < self.holdings@.len() ==> #[trigger] self.owner_index@.contains_key(
                self.holdings@[i].holder@,
            ) && self.owner_index@[self.holdings@[i].holder@] == ids_view(
                self.holdings@[i].token_ids@,
            )
        &&& forall|h: Seq<char>|
            #[trigger] self.owner_index@.contains_key(h) ==> exists|i: int|
                0 <= i < self.holdings@.len() && self.holdings@[i].holder@ == h
    }

    /// The stored data match the abstract state, and that state is consistent.
    pub closed spec fn wf(&self) -> bool {
        &&& self.records_wf()
        &&& self.holdings_wf()
        &&& self@.consistent()
    }

    /// A well-formed registry's indexes are consistent, so the laws stated
    /// over consistent states hold of every registry the operations produce.
    pub proof fn lemma_consistent(&self)
        requires
            self.wf(),
        ensures
            self@.consistent(),
    {
    }

    /// An uninitialized registry with no tokens.
    pub fn new() -> (r: Self)
        ensures
            r.wf(),
            r@.admin is None,
            r@.ipcm_contract is None,
            r@.tokens == Map::<Seq<char>, Seq<char>>::empty(),
            r@.ipcm_ref == Map::<Seq<char>, Seq<char>>::empty(),
            r@.owner_index == Map::<Seq<char>, Seq<Seq<char>>>::empty(),
    {
        let r = OctopusNFTContract {
            admin: None,
            ipcm_contract: None,
            records: Vec::new(),
            holdings: Vec::new(),
            tokens: Ghost(Map::empty()),
            ipcm_ref: Ghost(Map::empty()),
            owner_index: Ghost(Map::empty()),
        };
        assert(r@.tokens.dom() =~= r@.ipcm_ref.dom());
        r
    }

    /// Sets the administrator and the mapping-registry address; fails if the
    /// registry is already initialized.
    pub fn initialize(&mut self, admin: String, ipcm_contract: String) -> (r: Result<
        (),
        RegistryError,
    >)
        requires
            old(self).wf(),
        ensures
            final(self).wf(),
            old(self)@.admin is Some ==> r == Err::<(), RegistryError>(
                RegistryError::AlreadyInitialized,
            ) && final(self)@ == old(self)@,
            old(self)@.admin is None ==> r is Ok && final(self)@ == (NftState {
                admin: Some(admin@),
                ipcm_contract: Some(ipcm_contract@),
                ..old(self)@
            }),
    {
        if self.admin.is_some() {
            return Err(RegistryError::AlreadyInitialized);
        }
        self.admin = Some(admin);
        self.ipcm_contract = Some(ipcm_contract);
        assert(self.records@ == old(self).records@);
        assert(self.holdings@ == old(self).holdings@);
        Ok(())
    }

    /// Authorization for administrator-only operations.
    fn require_admin(&self, caller: &String, authorized: bool) -> (r: Result<(), RegistryError>)
        ensures
            match admin_check(self@.admin, caller@, authorized) {
                Some(e) => r == Err::<(), RegistryError>(e),
                None => r is Ok,
            },
    {
        match &self.admin {
            None => Err(RegistryError::NotInitialized),
            Some(a) => {
                if *caller != *a {
                    Err(RegistryError::NotAdmin)
                } else if !authorized {
                    Err(RegistryError::NotAuthorized)
                } else {
                    Ok(())
                }
            },
        }
    }

    /// The mapping-registry address, once initialized.
    pub fn get_ipcm_contract(&self) -> (r: Option<String>)
        ensures
            opt_view(r) == self@.ipcm_contract,
    {
        match &self.ipcm_contract {
            Some(a) => Some(a.clone()),
            None => None,
        }
    }

    /// The position of the record of `token_id`, if the token exists.
    fn find_record(&self, token_id: &String) -> (r: Option<usize>)
        requires
            self.records_wf(),
        ensures
            match r {
                Some(i) => i < self.records@.len() && self.records@[i as int].token_id@
                    == token_id@,
                None => !self@.tokens.contains_key(token_id@),
            },
    {
        let mut i: usize = 0;
        while i < self.records.len()
            invariant
                self.records_wf(),
                i <= self.records@.len(),
                forall|j: int| 0 <= j < i ==> self.records@[j].token_id@ != token_id@,
            decreases self.records@.len() - i,
        {
            if self.records[i].token_id == *token_id {
                return Some(i);
            }
            i = i + 1;
        }
        None
    }

    /// The position of the list of `holder`, if there is one.
    fn find_holding(&self, holder: &String) -> (r: Option<usize>)
        requires
            self.holdings_wf(),
        ensures
            match r {
                Some(i) => i < self.holdings@.len() && self.holdings@[i as int].holder@
                    == holder@,
                None => !self@.owner_index.contains_key(holder@),
            },
    {
        let mut i: usize = 0;
        while i < self.holdings.len()
            invariant
                self.holdings_wf(),
                i <= self.holdings@.len(),
                forall|j: int| 0 <= j < i ==> self.holdings@[j].holder@ != holder@,
            decreases self.holdings@.len() - i,
        {
            if self.holdings[i].holder == *holder {
                return Some(i);
            }
            i = i + 1;
        }
        None
    }

    /// A copy of the list of `holder`, empty if there is none.
    fn holding_of(&self, holder: &String) -> (r: Vec<String>)
        requires
            self.holdings_wf(),
        ensures
            ids_view(r@) == held_in(self@.owner_index, holder@),
    {
        match self.find_holding(holder) {
            Some(j) => copy_ids(&self.holdings[j].token_ids),
            None => {
                let r: Vec<String> = Vec::new();
                assert(ids_view(r@) =~= Seq::<Seq<char>>::empty());
                r
            },
        }
    }

    /// Replaces the list of `holder` with `ids`.
    fn put_holding(&mut self, holder: String, ids: Vec<String>)
        requires
            old(self).holdings_wf(),
        ensures
            final(self).holdings_wf(),
            final(self).records@ == old(self).records@,
            final(self)@ == (NftState {
                owner_index: old(self)@.owner_index.insert(holder@, ids_view(ids@)),
                ..old(self)@
            }),
    {
        let ghost old_holdings = self.holdings@;
        let ghost old_idx = self.owner_index@;
        let ghost key = holder@;
        let ghost value = ids_view(ids@);
        let ghost pos: int;
        match self.find_holding(&holder) {
            Some(j) => {
                self.holdings.set(j, Holding { holder, token_ids: ids });
                proof {
                    pos = j as int;
                }
            },
            None => {
                self.holdings.push(Holding { holder, token_ids: ids });
                proof {
                    pos = old_holdings.len() as int;
                }
            },
        }
        self.owner_index = Ghost(old_idx.insert(key, value));
        proof {
            assert(self.holdings@[pos].holder@ == key);
            assert(ids_view(self.holdings@[pos].token_ids@) == value);
            assert forall|i: int| 0 <= i < self.holdings@.len() && i != pos implies #[trigger] self.holdings@[i]
                == old_holdings[i] && self.holdings@[i].holder@ != key by {
                assert(old_idx.contains_key(old_holdings[i].holder@));
            }
            assert forall|h: Seq<char>| #[trigger] self.owner_index@.contains_key(h) implies exists|
                i: int,
            | 0 <= i < self.holdings@.len() && self.holdings@[i].holder@ == h by {
                if h == key {
                    assert(self.holdings@[pos].holder@ == h);
                } else {
                    assert(old_idx.contains_key(h));
                    let j = choose|j: int|
                        0 <= j < old_holdings.len() && old_holdings[j].holder@ == h;
                    assert(self.holdings@[j].holder@ == h);
                }
            }
        }
    }

    /// Adds `token_id` at the end of the list of `holder`.
    fn append_to_holding(&mut self, holder: String, token_id: &String)
        requires
            old(self).holdings_wf(),
        ensures
            final(self).holdings_wf(),
            final(self).records@ == old(self).records@,
            final(self)@ == (NftState {
                owner_index: old(self)@.owner_index.insert(
                    holder@,
                    held_in(old(self)@.owner_index, holder@).push(token_id@),
                ),
                ..old(self)@
            }),
    {
        let mut ids = self.holding_of(&holder);
        let ghost before = ids@;
        ids.push(token_id.clone());
        assert(ids_view(ids@) =~= ids_view(before).push(token_id@));
        self.put_holding(holder, ids);
    }

    /// Takes `token_id` out of the list of `holder`.
    fn remove_from_holding(&mut self, holder: String, token_id: &String)
        requires
            old(self).holdings_wf(),
        ensures
            final(self).holdings_wf(),
            final(self).records@ == old(self).records@,
            final(self)@ == (NftState {
                owner_index: old(self)@.owner_index.insert(
                    holder@,
                    without(held_in(old(self)@.owner_index, holder@), token_id@),
                ),
                ..old(self)@
            }),
    {
        let ids = self.holding_of(&holder);
        let kept = without_id(&ids, token_id);
        self.put_holding(holder, kept);
    }
    /// Adds the record of a new token.
    fn insert_record(&mut self, token_id: String, holder: String, ipcm_key: String)
        requires
            old(self).records_wf(),
            !old(self)@.tokens.contains_key(token_id@),
        ensures
            final(self).records_wf(),
            final(self).holdings@ == old(self).holdings@,
            final(self)@ == (NftState {
                tokens: old(self)@.tokens.insert(token_id@, holder@),
                ipcm_ref: old(self)@.ipcm_ref.insert(token_id@, ipcm_key@),
                ..old(self)@
            }),
    {
        let ghost old_records = self.records@;
        let ghost old_tokens = self.tokens@;
        let ghost old_ref = self.ipcm_ref@;
        let ghost (t, h, k) = (token_id@, holder@, ipcm_key@);
        self.records.push(TokenRecord { token_id, holder, ipcm_key });
        self.tokens = Ghost(old_tokens.insert(t, h));
        self.ipcm_ref = Ghost(old_ref.insert(t, k));
        proof {
            let n = old_records.len() as int;
            assert forall|i: int| 0 <= i < n implies #[trigger] self.records@[i] == old_records[i]
                && old_records[i].token_id@ != t by {
                assert(old_tokens.contains_key(old_records[i].token_id@));
            }
            assert forall|x: Seq<char>| #[trigger] self.tokens@.contains_key(x) implies exists|
                i: int,
            | 0 <= i < self.records@.len() && self.records@[i].token_id@ == x by {
                if x == t {
                    assert(self.records@[n].token_id@ == x);
                } else {
                    let j = choose|j: int|
                        0 <= j < old_records.len() && old_records[j].token_id@ == x;
                    assert(self.records@[j].token_id@ == x);
                }
            }
            assert(self.records@[n].token_id@ == t);
        }
    }

    /// Records `to` as the holder of the token at position `i`.
    fn set_holder(&mut self, i: usize, to: String)
        requires
            old(self).records_wf(),
            i < old(self).records@.len(),
        ensures
            final(self).records_wf(),
            final(self).holdings@ == old(self).holdings@,
            final(self)@ == (NftState {
                tokens: old(self)@.tokens.insert(old(self).records@[i as int].token_id@, to@),
                ..old(self)@
            }),
    {
        let ghost old_records = self.records@;
        let ghost old_tokens = self.tokens@;
        let ghost t = self.records@[i as int].token_id@;
        let ghost h = to@;
        let token_id = self.records[i].token_id.clone();
        let ipcm_key = self.records[i].ipcm_key.clone();
        self.records.set(i, TokenRecord { token_id, holder: to, ipcm_key });
        self.tokens = Ghost(old_tokens.insert(t, h));
        proof {
            assert forall|j: int| 0 <= j < self.records@.len() && j != i implies #[trigger] self.records@[j]
                == old_records[j] && old_records[j].token_id@ != t by {}
            assert forall|x: Seq<char>| #[trigger] self.tokens@.contains_key(x) implies exists|
                j: int,
            | 0 <= j < self.records@.len() && self.records@[j].token_id@ == x by {
                if x == t {
                    assert(self.records@[i as int].token_id@ == x);
                } else {
                    let j = choose|j: int|
                        0 <= j < old_records.len() && old_records[j].token_id@ == x;
                    assert(self.records@[j].token_id@ == x);
                }
            }
        }
    }

    /// Drops the record of the token at position `i`.
    fn remove_record(&mut self, i: usize)
        requires
            old(self).records_wf(),
            i < old(self).records@.len(),
        ensures
            final(self).records_wf(),
            final(self).holdings@ == old(self).holdings@,
            final(self)@ == (NftState {
                tokens: old(self)@.tokens.remove(old(self).records@[i as int].token_id@),
                ipcm_ref: old(self)@.ipcm_ref.remove(old(self).records@[i as int].token_id@),
                ..old(self)@
            }),
    {
        let ghost old_records = self.records@;
        let ghost old_tokens = self.tokens@;
        let ghost old_ref = self.ipcm_ref@;
        let ghost t = self.records@[i as int].token_id@;
        self.records.remove(i);
        self.tokens = Ghost(old_tokens.remove(t));
        self.ipcm_ref = Ghost(old_ref.remove(t));
        proof {
            assert forall|j: int| 0 <= j < self.records@.len() implies #[trigger] self.records@[j]
                == old_records[if j < i { j } else { j + 1 }] && self.records@[j].token_id@ != t by {}
            assert forall|j: int, l: int|
                0 <= j < l < self.records@.len() implies self.records@[j].token_id@
                != self.records@[l].token_id@ by {
                assert(self.records@[j] == old_records[if j < i { j } else { j + 1 }]);
                assert(self.records@[l] == old_records[if l < i { l } else { l + 1 }]);
            }
            assert forall|x: Seq<char>| #[trigger] self.tokens@.contains_key(x) implies exists|
                j: int,
            | 0 <= j < self.records@.len() && self.records@[j].token_id@ == x by {
                let j = choose|j: int| 0 <= j < old_records.len() && old_records[j].token_id@ == x;
                if j < i {
                    assert(self.records@[j] == old_records[j]);
                } else {
                    assert(self.records@[j - 1] == old_records[j]);
                }
            }
        }
    }

    /// Creates token `token_id`, held by `holder`, with mapping key
    /// `ipcm_key`. Only the administrator, with a proof of control, may mint,
    /// and only an identifier that is not live.
    pub fn mint(
        &mut self,
        caller: String,
        authorized: bool,
        token_id: String,
        holder: String,
        ipcm_key: String,
    ) -> (r: Result<Minted, RegistryError>)
        requires
            old(self).wf(),
        ensures
            final(self).wf(),
            match admin_check(old(self)@.admin, caller@, authorized) {
                Some(e) => r == Err::<Minted, RegistryError>(e) && final(self)@ == old(self)@,
                None => if old(self)@.tokens.contains_key(token_id@) {
                    r == Err::<Minted, RegistryError>(RegistryError::TokenAlreadyExists)
                        && final(self)@ == old(self)@
                } else {
                    match r {
                        Ok(ev) => final(self)@ == old(self)@.minted(token_id@, holder@, ipcm_key@)
                            && ev.token_id@ == token_id@ && ev.holder@ == holder@
                            && ev.ipcm_key@ == ipcm_key@,
                        Err(_) => false,
                    }
                },
            },
    {
        if let Err(e) = self.require_admin(&caller, authorized) {
            return Err(e);
        }
        if self.find_record(&token_id).is_some() {
            return Err(RegistryError::TokenAlreadyExists);
        }
        proof {
            lemma_mint_keeps_consistent(self@, token_id@, holder@, ipcm_key@);
        }
        self.insert_record(token_id.clone(), holder.clone(), ipcm_key.clone());
        self.append_to_holding(holder.clone(), &token_id);
        Ok(Minted { token_id, holder, ipcm_key })
    }

    /// Moves token `token_id` from its holder to `to`. Only the holder, with a
    /// proof of control, may do so. The mapping key is left as it is.
    pub fn transfer(&mut self, caller: String, authorized: bool, token_id: String, to: String) -> (r:
        Result<Transferred, RegistryError>)
        requires
            old(self).wf(),
        ensures
            final(self).wf(),
            match holder_check(old(self)@.tokens, token_id@, caller@, authorized) {
                Some(e) => r == Err::<Transferred, RegistryError>(e) && final(self)@ == old(self)@,
                None => match r {
                    Ok(ev) => final(self)@ == old(self)@.transferred(token_id@, to@)
                        && ev.token_id@ == token_id@ && ev.from@ == old(self)@.tokens[token_id@]
                        && ev.to@ == to@,
                    Err(_) => false,
                },
            },
    {
        let i = match self.find_record(&token_id) {
            None => return Err(RegistryError::TokenNotFound),
            Some(i) => i,
        };
        let from = self.records[i].holder.clone();
        if from != caller {
            return Err(RegistryError::NotOwner);
        }
        if !authorized {
            return Err(RegistryError::NotAuthorized);
        }
        proof {
            lemma_transfer_keeps_consistent(self@, token_id@, to@);
        }
        self.remove_from_holding(from.clone(), &token_id);
        self.append_to_holding(to.clone(), &token_id);
        self.set_holder(i, to.clone());
        Ok(Transferred { token_id, from, to })
    }

    /// Destroys token `token_id`, purging it from every index. Only the
    /// holder, with a proof of control, may do so.
    pub fn burn(&mut self, caller: String, authorized: bool, token_id: String) -> (r: Result<
        Burned,
        RegistryError,
    >)
        requires
            old(self).wf(),
        ensures
            final(self).wf(),
            match holder_check(old(self)@.tokens, token_id@, caller@, authorized) {
                Some(e) => r == Err::<Burned, RegistryError>(e) && final(self)@ == old(self)@,
                None => match r {
                    Ok(ev) => final(self)@ == old(self)@.burned(token_id@) && ev.token_id@
                        == token_id@ && ev.holder@ == old(self)@.tokens[token_id@],
                    Err(_) => false,
                },
            },
    {
        let i = match self.find_record(&token_id) {
            None => return Err(RegistryError::TokenNotFound),
            Some(i) => i,
        };
        let holder = self.records[i].holder.clone();
        if holder != caller {
            return Err(RegistryError::NotOwner);
        }
        if !authorized {
            return Err(RegistryError::NotAuthorized);
        }
        proof {
            lemma_burn_keeps_consistent(self@, token_id@);
        }
        self.remove_from_holding(holder.clone(), &token_id);
        self.remove_record(i);
        Ok(Burned { token_id, holder })
    }

    /// The holder of token `token_id`; fails if the token does not exist.
    pub fn owner_of(&self, token_id: &String) -> (r: Result<String, RegistryError>)
        requires
            self.wf(),
        ensures
            self@.tokens.contains_key(token_id@) ==> r is Ok && r->Ok_0@
                == self@.tokens[token_id@],
            !self@.tokens.contains_key(token_id@) ==> r == Err::<String, RegistryError>(
                RegistryError::TokenNotFound,
            ),
    {
        match self.find_record(token_id) {
            Some(i) => Ok(self.records[i].holder.clone()),
            None => Err(RegistryError::TokenNotFound),
        }
    }

    /// The mapping key of token `token_id`; fails if the token does not exist.
    pub fn get_ipcm_key(&self, token_id: &String) -> (r: Result<String, RegistryError>)
        requires
            self.wf(),
        ensures
            self@.ipcm_ref.contains_key(token_id@) ==> r is Ok && r->Ok_0@
                == self@.ipcm_ref[token_id@],
            !self@.ipcm_ref.contains_key(token_id@) ==> r == Err::<String, RegistryError>(
                RegistryError::TokenNotFound,
            ),
    {
        match self.find_record(token_id) {
            Some(i) => Ok(self.records[i].ipcm_key.clone()),
            None => {
                assert(!self@.tokens.dom().contains(token_id@));
                Err(RegistryError::TokenNotFound)
            },
        }
    }

    /// The tokens `holder` holds, in the order received; empty for a holder
    /// that never held one.
    pub fn tokens_of(&self, holder: &String) -> (r: Vec<String>)
        requires
            self.wf(),
        ensures
            ids_view(r@) == self@.tokens_of(holder@),
    {
        self.holding_of(holder)
    }
}

} // verus!
