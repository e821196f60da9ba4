//! Participant accounts: a cash balance and per-symbol holdings, mutated only
//! through checked operations that either succeed exactly as specified or
//! leave the account untouched.

use vstd::prelude::*;

verus! {

pub type AccountId = u128;
pub type AccountBalance = u128;
pub type AccountHolding = u128;

/// Errors raised by account arithmetic. Cash errors are reported as
/// `BalanceOutOfBounds`, share errors as `HoldingOutOfBounds`; debiting a
/// symbol that the account does not hold at all is `AssetNotFound`.
#[derive(Clone, Copy, Debug, PartialEq, Eq, Structural)]
pub enum AccountError {
    InsufficientFunds,
    InsufficientHoldings,
    BalanceOutOfBounds,
    HoldingOutOfBounds,
    AssetNotFound,
}

impl AccountError {
    /// The human-readable description of this error.
    pub open spec fn spec_message(self) -> Seq<char> {
        match self {
            AccountError::InsufficientFunds => "Insufficient Funds"@,
            AccountError::InsufficientHoldings => "Insufficient Holdings"@,
            AccountError::BalanceOutOfBounds => "Balance (or difference in) too large or too small"@,
            AccountError::HoldingOutOfBounds => "Holding (or difference in) too large or too small"@,
            AccountError::AssetNotFound => "No such asset in portfolio"@,
        }
    }

    pub fn message(&self) -> (r: String)
        ensures
            r@ == self.spec_message(),
    {
        match self {
            AccountError::InsufficientFunds => "Insufficient Funds".to_string(),
            AccountError::InsufficientHoldings => "Insufficient Holdings".to_string(),
            AccountError::BalanceOutOfBounds => "Balance (or difference in) too large or too small"
                .to_string(),
            AccountError::HoldingOutOfBounds => "Holding (or difference in) too large or too small"
                .to_string(),
            AccountError::AssetNotFound => "No such asset in portfolio".to_string(),
        }
    }
}

/// A participant account. Holdings are an association list from symbol to
/// quantity with pairwise-distinct keys; its mathematical content is the
/// finite map `holdings_map(self.holdings@)`.
#[derive(Clone, Debug, PartialEq, Eq)]
pub struct Account {
    pub id: AccountId,
    pub name: String,
    pub balance: AccountBalance,
    pub holdings: Vec<(String, AccountHolding)>,
}

/// The mathematical value of an account: everything observable about it.
#[verifier::ext_equal]
pub struct AccountV {
    pub id: u128,
    pub name: Seq<char>,
    pub balance: u128,
    pub holdings: Map<Seq<char>, u128>,
}

/// The finite map denoted by an association list (later entries win; under
/// `keys_unique` there is at most one entry per key anyway).
pub open spec fn holdings_map(s: Seq<(String, AccountHolding)>) -> Map<Seq<char>, u128>
    decreases s.len(),
{
    if s.len() == 0 {
        Map::empty()
    } else {
        holdings_map(s.drop_last()).insert(s.last().0@, s.last().1)
    }
}

/// The association list has pairwise-distinct keys.
pub open spec fn keys_unique(s: Seq<(String, AccountHolding)>) -> bool {
    forall|i: int, j: int| 0 <= i < j < s.len() ==> s[i].0@ != s[j].0@
}

impl View for Account {
    type V = AccountV;

    open spec fn view(&self) -> AccountV {
        AccountV {
            id: self.id,
            name: self.name@,
            balance: self.balance,
            holdings: holdings_map(self.holdings@),
        }
    }
}

/// A key is in the map exactly when some entry of the list carries it.
pub proof fn lemma_holdings_map_dom(s: Seq<(String, AccountHolding)>, k: Seq<char>)
    ensures
        holdings_map(s).dom().contains(k) <==> exists|i: int| 0 <= i < s.len() && s[i].0@ == k,
    decreases s.len(),
{
    if s.len() > 0 {
        lemma_holdings_map_dom(s.drop_last(), k);
        if s.last().0@ != k && holdings_map(s).dom().contains(k) {
            let i = choose|i: int| 0 <= i < s.drop_last().len() && s.drop_last()[i].0@ == k;
            assert(s[i].0@ == k);
        }
        if s.last().0@ != k && exists|i: int| 0 <= i < s.len() && s[i].0@ == k {
            let i = choose|i: int| 0 <= i < s.len() && s[i].0@ == k;
            assert(s.drop_last()[i].0@ == k);
        }
    }
}

/// Under distinct keys, the entry at any index gives the map's value there.
pub proof fn lemma_holdings_map_index(s: Seq<(String, AccountHolding)>, i: int)
    requires
        keys_unique(s),
        0 <= i < s.len(),
    ensures
        holdings_map(s).dom().contains(s[i].0@),
        holdings_map(s)[s[i].0@] == s[i].1,
    decreases s.len(),
{
    if i < s.len() - 1 {
        lemma_holdings_map_index(s.drop_last(), i);
        assert(s.drop_last()[i] == s[i]);
        assert(s.last().0@ != s[i].0@);
    }
}

/// Appending a fresh entry inserts it into the map.
pub proof fn lemma_holdings_map_push(s: Seq<(String, AccountHolding)>, p: (String, AccountHolding))
    ensures
        holdings_map(s.push(p)) == holdings_map(s).insert(p.0@, p.1),
{
    assert(s.push(p).drop_last() =~= s);
    assert(s.push(p).last() == p);
}

/// Overwriting the entry at `i` with the same key updates the map at that key.
pub proof fn lemma_holdings_map_update(
    s: Seq<(String, AccountHolding)>,
    i: int,
    p: (String, AccountHolding),
)
    requires
        keys_unique(s),
        0 <= i < s.len(),
        p.0@ == s[i].0@,
    ensures
        holdings_map(s.update(i, p)) =~= holdings_map(s).insert(p.0@, p.1),
        keys_unique(s.update(i, p)),
    decreases s.len(),
{
    let s2 = s.update(i, p);
    if i == s.len() - 1 {
        assert(s2.drop_last() =~= s.drop_last());
        assert(s2.last() == p);
    } else {
        lemma_holdings_map_update(s.drop_last(), i, p);
        assert(s2.drop_last() =~= s.drop_last().update(i, p));
        assert(s2.last() == s.last());
        assert(s.last().0@ != p.0@);
    }
}

/// What `add_balance` returns and does, as a function of the account's value.
pub open spec fn spec_add_balance(a: AccountV, amount: u128) -> Result<AccountV, AccountError> {
    if a.balance + amount <= u128::MAX {
        Ok(AccountV { balance: (a.balance + amount) as u128, ..a })
    } else {
        Err(AccountError::BalanceOutOfBounds)
    }
}

/// What `take_balance` returns and does.
pub open spec fn spec_take_balance(a: AccountV, amount: u128) -> Result<AccountV, AccountError> {
    if amount <= a.balance {
        Ok(AccountV { balance: (a.balance - amount) as u128, ..a })
    } else {
        Err(AccountError::BalanceOutOfBounds)
    }
}

/// The quantity an account holds of a symbol, zero when absent.
pub open spec fn holding_or_zero(a: AccountV, ticker: Seq<char>) -> u128 {
    if a.holdings.dom().contains(ticker) {
        a.holdings[ticker]
    } else {
        0
    }
}

/// What `add_holding` returns and does: a fresh symbol is inserted outright,
/// an existing one is incremented with an overflow check.
pub open spec fn spec_add_holding(a: AccountV, ticker: Seq<char>, amount: u128) -> Result<
    AccountV,
    AccountError,
> {
    if !a.holdings.dom().contains(ticker) {
        Ok(AccountV { holdings: a.holdings.insert(ticker, amount), ..a })
    } else if a.holdings[ticker] + amount <= u128::MAX {
        Ok(
            AccountV {
                holdings: a.holdings.insert(ticker, (a.holdings[ticker] + amount) as u128),
                ..a
            },
        )
    } else {
        Err(AccountError::HoldingOutOfBounds)
    }
}

/// What `take_holding` returns and does: the symbol must be held and cover
/// the amount; the entry stays present even when it reaches zero.
pub open spec fn spec_take_holding(a: AccountV, ticker: Seq<char>, amount: u128) -> Result<
    AccountV,
    AccountError,
> {
    if !a.holdings.dom().contains(ticker) {
        Err(AccountError::AssetNotFound)
    } else if amount > a.holdings[ticker] {
        Err(AccountError::HoldingOutOfBounds)
    } else {
        Ok(
            AccountV {
                holdings: a.holdings.insert(ticker, (a.holdings[ticker] - amount) as u128),
                ..a
            },
        )
    }
}

/// The mathematical values of a whole arena of accounts.
pub open spec fn arena_view(s: Seq<Account>) -> Seq<AccountV> {
    s.map_values(|a: Account| a@)
}

/// Account identifiers are pairwise distinct.
pub open spec fn ids_unique(s: Seq<AccountV>) -> bool {
    forall|i: int, j: int| 0 <= i < j < s.len() ==> s[i].id != s[j].id
}

/// Every account is well formed and identifiers are pairwise distinct.
pub open spec fn arena_wf(s: Seq<Account>) -> bool {
    &&& forall|i: int| 0 <= i < s.len() ==> s[i].wf()
    &&& ids_unique(arena_view(s))
}

/// Some account in the arena carries this identifier.
pub open spec fn has_account(s: Seq<AccountV>, id: AccountId) -> bool {
    exists|i: int| 0 <= i < s.len() && s[i].id == id
}

/// The position of the account with this identifier (unique under
/// `ids_unique`; meaningful only when `has_account` holds).
pub open spec fn account_index(s: Seq<AccountV>, id: AccountId) -> int {
    choose|i: int| 0 <= i < s.len() && s[i].id == id
}

/// Under distinct identifiers, `account_index` names the one position that
/// carries the identifier.
pub proof fn lemma_account_index(s: Seq<AccountV>, id: AccountId, i: int)
    requires
        ids_unique(s),
        0 <= i < s.len(),
        s[i].id == id,
    ensures
        account_index(s, id) == i,
        has_account(s, id),
{
    let j = account_index(s, id);
    if j != i {
        assert(s[j].id == id);
    }
}

/// The cash held across the whole arena.
pub open spec fn total_cash(s: Seq<AccountV>) -> int
    decreases s.len(),
{
    if s.len() == 0 {
        0
    } else {
        total_cash(s.drop_last()) + s.last().balance
    }
}

/// The quantity of one symbol held across the whole arena.
pub open spec fn total_holding(s: Seq<AccountV>, ticker: Seq<char>) -> int
    decreases s.len(),
{
    if s.len() == 0 {
        0
    } else {
        total_holding(s.drop_last(), ticker) + holding_or_zero(s.last(), ticker)
    }
}

/// Replacing one account changes the arena's cash by that account's change.
pub proof fn lemma_total_cash_update(s: Seq<AccountV>, i: int, v: AccountV)
    requires
        0 <= i < s.len(),
    ensures
        total_cash(s.update(i, v)) == total_cash(s) - s[i].balance + v.balance,
    decreases s.len(),
{
    if i == s.len() - 1 {
        assert(s.update(i, v).drop_last() =~= s.drop_last());
    } else {
        lemma_total_cash_update(s.drop_last(), i, v);
        assert(s.update(i, v).drop_last() =~= s.drop_last().update(i, v));
        assert(s.update(i, v).last() == s.last());
    }
}

/// Replacing one account changes the arena's holding of each symbol by that
/// account's change.
pub proof fn lemma_total_holding_update(s: Seq<AccountV>, i: int, v: AccountV, ticker: Seq<char>)
    requires
        0 <= i < s.len(),
    ensures
        total_holding(s.update(i, v), ticker) == total_holding(s, ticker) - holding_or_zero(
            s[i],
            ticker,
        ) + holding_or_zero(v, ticker),
    decreases s.len(),
{
    if i == s.len() - 1 {
        assert(s.update(i, v).drop_last() =~= s.drop_last());
    } else {
        lemma_total_holding_update(s.drop_last(), i, v, ticker);
        assert(s.update(i, v).drop_last() =~= s.drop_last().update(i, v));
        assert(s.update(i, v).last() == s.last());
    }
}

/// Locates the arena position of the account with the given identifier.
pub fn find_account(accounts: &Vec<Account>, id: AccountId) -> (r: usize)
    requires
        has_account(arena_view(accounts@), id),
    ensures
        r < accounts@.len(),
        accounts@[r as int].id == id,
{
    let n = accounts.len();
    let mut i: usize = 0;
    while i < n
        invariant
            n == accounts@.len(),
            i <= n,
            has_account(arena_view(accounts@), id),
            forall|j: int| 0 <= j < i ==> accounts@[j].id != id,
        decreases n - i,
    {
        if accounts[i].id == id {
            return i;
        }
        i = i + 1;
    }
    proof {
        let j = choose|j: int|
            0 <= j < arena_view(accounts@).len() && arena_view(accounts@)[j].id == id;
        assert(accounts@[j].id == id);
    }
    0
}

impl Account {
    /// The representation invariant: one association-list entry per symbol.
    pub open spec fn wf(self) -> bool {
        keys_unique(self.holdings@)
    }

    pub fn new(
        id: AccountId,
        name: String,
        balance: AccountBalance,
        holdings: Vec<(String, AccountHolding)>,
    ) -> (r: Self)
        requires
            keys_unique(holdings@),
        ensures
            r.wf(),
            r@ == (AccountV {
                id: id,
                name: name@,
                balance: balance,
                holdings: holdings_map(holdings@),
            }),
    {
        Account { id, name, balance, holdings }
    }

    pub fn id(&self) -> (r: AccountId)
        ensures
            r == self@.id,
    {
        self.id
    }

    pub fn name(&self) -> (r: String)
        ensures
            r@ == self@.name,
    {
        self.name.clone()
    }

    pub fn balance(&self) -> (r: AccountBalance)
        ensures
            r == self@.balance,
    {
        self.balance
    }

    pub fn set_balance(&mut self, balance: AccountBalance)
        requires
            old(self).wf(),
        ensures
            final(self).wf(),
            final(self)@ == (AccountV { balance: balance, ..old(self)@ }),
    {
        self.balance = balance;
    }

    /// Locates the association-list entry for `ticker`, if any.
    fn find_entry(&self, ticker: &String) -> (r: Option<usize>)
        requires
            self.wf(),
        ensures
            match r {
                Some(i) => i < self.holdings@.len() && self.holdings@[i as int].0@ == ticker@,
                None => !self@.holdings.dom().contains(ticker@),
            },
    {
        let n = self.holdings.len();
        let mut i: usize = 0;
        while i < n
            invariant
                n == self.holdings@.len(),
                i <= n,
                forall|j: int| 0 <= j < i ==> self.holdings@[j].0@ != ticker@,
            decreases n - i,
        {
            if self.holdings[i].0 == *ticker {
                return Some(i);
            }
            i = i + 1;
        }
        proof {
            lemma_holdings_map_dom(self.holdings@, ticker@);
        }
        None
    }

    pub fn holding(&self, ticker: String) -> (r: Option<AccountHolding>)
        requires
            self.wf(),
        ensures
            r == (if self@.holdings.dom().contains(ticker@) {
                Some(self@.holdings[ticker@])
            } else {
                None::<AccountHolding>
            }),
    {
        match self.find_entry(&ticker) {
            Some(i) => {
                proof {
                    lemma_holdings_map_index(self.holdings@, i as int);
                }
                Some(self.holdings[i].1)
            },
            None => None,
        }
    }

    /// Records `quantity` for a symbol not yet held; an existing entry is
    /// left as it is.
    pub fn set_holding(&mut self, ticker: String, quantity: AccountHolding)
        requires
            old(self).wf(),
        ensures
            final(self).wf(),
            final(self)@ == (AccountV {
                holdings: (if old(self)@.holdings.dom().contains(ticker@) {
                    old(self)@.holdings
                } else {
                    old(self)@.holdings.insert(ticker@, quantity)
                }),
                ..old(self)@
            }),
    {
        match self.find_entry(&ticker) {
            Some(_) => {
                proof {
                    lemma_holdings_map_dom(self.holdings@, ticker@);
                }
            },
            None => {
                proof {
                    lemma_holdings_map_push(self.holdings@, (ticker, quantity));
                    lemma_holdings_map_dom(self.holdings@, ticker@);
                }
                self.holdings.push((ticker, quantity));
            },
        }
    }

    pub fn add_balance(&mut self, amount: AccountBalance) -> (r: Result<(), AccountError>)
        requires
            old(self).wf(),
        ensures
            final(self).wf(),
            match spec_add_balance(old(self)@, amount) {
                Ok(v) => r is Ok && final(self)@ == v,
                Err(e) => r == Err::<(), AccountError>(e) && final(self)@ == old(self)@,
            },
    {
        match self.balance.checked_add(amount) {
            Some(b) => {
                self.balance = b;
                Ok(())
            },
            None => Err(AccountError::BalanceOutOfBounds),
        }
    }

    pub fn take_balance(&mut self, amount: AccountBalance) -> (r: Result<(), AccountError>)
        requires
            old(self).wf(),
        ensures
            final(self).wf(),
            match spec_take_balance(old(self)@, amount) {
                Ok(v) => r is Ok && final(self)@ == v,
                Err(e) => r == Err::<(), AccountError>(e) && final(self)@ == old(self)@,
            },
    {
        if amount > self.balance {
            Err(AccountError::BalanceOutOfBounds)
        } else {
            self.balance = self.balance - amount;
            Ok(())
        }
    }

    pub fn add_holding(&mut self, ticker: String, amount: AccountHolding) -> (r: Result<
        (),
        AccountError,
    >)
        requires
            old(self).wf(),
        ensures
            final(self).wf(),
            match spec_add_holding(old(self)@, ticker@, amount) {
                Ok(v) => r is Ok && final(self)@ == v,
                Err(e) => r == Err::<(), AccountError>(e) && final(self)@ == old(self)@,
            },
    {
        match self.find_entry(&ticker) {
            None => {
                proof {
                    lemma_holdings_map_push(self.holdings@, (ticker, amount));
                    lemma_holdings_map_dom(self.holdings@, ticker@);
                }
                self.holdings.push((ticker, amount));
                Ok(())
            },
            Some(i) => {
                proof {
                    lemma_holdings_map_index(self.holdings@, i as int);
                }
                let current = self.holdings[i].1;
                match current.checked_add(amount) {
                    None => Err(AccountError::HoldingOutOfBounds),
                    Some(updated) => {
                        let entry = self.holdings.remove(i);
                        self.holdings.insert(i, (entry.0, updated));
                        proof {
                            assert(self.holdings@ =~= old(self).holdings@.update(
                                i as int,
                                (entry.0, updated),
                            ));
                            lemma_holdings_map_update(
                                old(self).holdings@,
                                i as int,
                                (entry.0, updated),
                            );
                        }
                        Ok(())
                    },
                }
            },
        }
    }

    pub fn take_holding(&mut self, ticker: String, amount: AccountHolding) -> (r: Result<
        (),
        AccountError,
    >)
        requires
            old(self).wf(),
        ensures
            final(self).wf(),
            match spec_take_holding(old(self)@, ticker@, amount) {
                Ok(v) => r is Ok && final(self)@ == v,
                Err(e) => r == Err::<(), AccountError>(e) && final(self)@ == old(self)@,
            },
    {
        match self.find_entry(&ticker) {
            None => Err(AccountError::AssetNotFound),
            Some(i) => {
                proof {
                    lemma_holdings_map_index(self.holdings@, i as int);
                }
                let current = self.holdings[i].1;
                if amount > current {
                    Err(AccountError::HoldingOutOfBounds)
                } else {
                    let updated = current - amount;
                    let entry = self.holdings.remove(i);
                    self.holdings.insert(i, (entry.0, updated));
                    proof {
                        assert(self.holdings@ =~= old(self).holdings@.update(
                            i as int,
                            (entry.0, updated),
                        ));
                        lemma_holdings_map_update(
                            old(self).holdings@,
                            i as int,
                            (entry.0, updated),
                        );
                    }
                    Ok(())
                }
            },
        }
    }
}

} // verus!
