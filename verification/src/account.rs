//! Account identifiers and their lexicographic order, which the shard
//! layout's boundary accounts are compared under.

use vstd::prelude::*;

verus! {

/// Shortest allowed account id.
pub const MIN_ACCOUNT_ID_LEN: usize = 2;

/// Longest allowed account id.
pub const MAX_ACCOUNT_ID_LEN: usize = 64;

/// Bytes allowed in an account id: lowercase letters, digits, `-`, `_`, `.`.
pub open spec fn valid_account_byte(b: u8) -> bool {
    (97 <= b <= 122) || (48 <= b <= 57) || b == 45 || b == 95 || b == 46
}

/// A well-formed account id: bounded length, allowed bytes only.
pub open spec fn is_valid_account_id(s: Seq<u8>) -> bool {
    MIN_ACCOUNT_ID_LEN <= s.len() <= MAX_ACCOUNT_ID_LEN
        && forall|i: int| 0 <= i < s.len() ==> valid_account_byte(s[i])
}

/// Strict lexicographic order on byte strings.
pub open spec fn lex_lt(a: Seq<u8>, b: Seq<u8>) -> bool
    decreases a.len(),
{
    if b.len() == 0 {
        false
    } else if a.len() == 0 {
        true
    } else if a[0] < b[0] {
        true
    } else if a[0] > b[0] {
        false
    } else {
        lex_lt(a.skip(1), b.skip(1))
    }
}

/// Comparing two byte strings that agree on their first `i` bytes comes down
/// to comparing what follows those bytes.
pub proof fn lemma_lex_lt_common_prefix(a: Seq<u8>, b: Seq<u8>, i: int)
    requires
        0 <= i <= a.len(),
        i <= b.len(),
        forall|j: int| 0 <= j < i ==> a[j] == b[j],
    ensures
        lex_lt(a, b) == lex_lt(a.skip(i), b.skip(i)),
    decreases i,
{
    if i > 0 {
        assert(a.skip(1).skip(i - 1) =~= a.skip(i));
        assert(b.skip(1).skip(i - 1) =~= b.skip(i));
        lemma_lex_lt_common_prefix(a.skip(1), b.skip(1), i - 1);
    } else {
        assert(a.skip(0) =~= a);
        assert(b.skip(0) =~= b);
    }
}

/// The lexicographic order is transitive.
pub proof fn lemma_lex_lt_trans(a: Seq<u8>, b: Seq<u8>, c: Seq<u8>)
    requires
        lex_lt(a, b),
        lex_lt(b, c),
    ensures
        lex_lt(a, c),
    decreases a.len(),
{
    if a.len() == 0 {
    } else {
        if a[0] == b[0] && b[0] == c[0] {
            lemma_lex_lt_trans(a.skip(1), b.skip(1), c.skip(1));
        }
    }
}

/// Nothing is lexicographically below itself.
pub proof fn lemma_lex_lt_irrefl(a: Seq<u8>)
    ensures
        !lex_lt(a, a),
    decreases a.len(),
{
    if a.len() > 0 {
        lemma_lex_lt_irrefl(a.skip(1));
    }
}

/// An account id: a validated byte string.
#[derive(Debug, PartialEq, Eq, Hash)]
pub struct AccountId(pub Vec<u8>);

impl View for AccountId {
    type V = Seq<u8>;

    open spec fn view(&self) -> Seq<u8> {
        self.0@
    }
}

impl Clone for AccountId {
    fn clone(&self) -> (r: Self)
        ensures
            r@ == self@,
    {
        let v = self.0.clone();
        proof {
            assert(v@ =~= self.0@);
        }
        AccountId(v)
    }
}

/// Checks that `bytes` form a valid account id.
pub fn validate_account_bytes(bytes: &Vec<u8>) -> (r: bool)
    ensures
        r == is_valid_account_id(bytes@),
{
    if bytes.len() < MIN_ACCOUNT_ID_LEN || bytes.len() > MAX_ACCOUNT_ID_LEN {
        return false;
    }
    let n = bytes.len();
    for i in 0..n
        invariant
            n == bytes.len(),
            MIN_ACCOUNT_ID_LEN <= n <= MAX_ACCOUNT_ID_LEN,
            forall|j: int| 0 <= j < i ==> valid_account_byte(bytes@[j]),
    {
        let b = bytes[i];
        let ok = (97 <= b && b <= 122) || (48 <= b && b <= 57) || b == 45 || b == 95 || b == 46;
        if !ok {
            return false;
        }
    }
    true
}

impl AccountId {
    /// Well-formed: the bytes pass account-id validation.
    pub open spec fn wf(&self) -> bool {
        is_valid_account_id(self@)
    }

    /// Builds an account id out of raw bytes, `None` when they are invalid.
    pub fn from_bytes(bytes: Vec<u8>) -> (r: Option<AccountId>)
        ensures
            r is Some <==> is_valid_account_id(bytes@),
            r is Some ==> r.unwrap()@ == bytes@ && r.unwrap().wf(),
    {
        if validate_account_bytes(&bytes) {
            Some(AccountId(bytes))
        } else {
            None
        }
    }

    /// Strict lexicographic comparison of two account ids.
    pub fn lt(&self, other: &AccountId) -> (r: bool)
        ensures
            r == lex_lt(self@, other@),
    {
        let a = &self.0;
        let b = &other.0;
        let n = if a.len() < b.len() {
            a.len()
        } else {
            b.len()
        };
        for i in 0..n
            invariant
                n <= a.len(),
                n <= b.len(),
                forall|j: int| 0 <= j < i ==> a@[j] == b@[j],
        {
            if a[i] < b[i] {
                proof {
                    lemma_lex_lt_common_prefix(a@, b@, i as int);
                    assert(a@.skip(i as int).len() > 0);
                    assert(b@.skip(i as int).len() > 0);
                    assert(a@.skip(i as int)[0] == a@[i as int]);
                    assert(b@.skip(i as int)[0] == b@[i as int]);
                    assert(lex_lt(a@.skip(i as int), b@.skip(i as int)));
                    assert(lex_lt(a@, b@));
                    assert(self@ == a@);
                }
                return true;
            }
            if a[i] > b[i] {
                proof {
                    lemma_lex_lt_common_prefix(a@, b@, i as int);
                    assert(a@.skip(i as int)[0] == a@[i as int]);
                    assert(b@.skip(i as int)[0] == b@[i as int]);
                }
                return false;
            }
        }
        proof {
            lemma_lex_lt_common_prefix(a@, b@, n as int);
            if a@.len() < b@.len() {
                assert(a@.skip(n as int).len() == 0);
                assert(b@.skip(n as int).len() > 0);
            } else {
                assert(b@.skip(n as int).len() == 0);
            }
        }
        a.len() < b.len()
    }
}

} // verus!
