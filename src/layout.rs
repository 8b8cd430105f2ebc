//! The store's directory: segment file names, and which backend owns a root.
use vstd::prelude::*;

use crate::decimal::{decimal, digits_value, lemma_canonical, lemma_decimal, parse_digits, to_decimal};
use crate::error::HobbesError;

verus! {

pub open spec fn db_extension() -> Seq<char> {
    seq!['.', 'd', 'b']
}

/// The file name of segment `id`: its decimal digits, then `.db`.
pub open spec fn segment_name(id: nat) -> Seq<char> {
    decimal(id) + db_extension()
}

/// The file name of segment `id`.
pub fn segment_file_name(id: u64) -> (r: String)
    ensures
        r@ == segment_name(id as nat),
{
    let mut s = to_decimal(id);
    proof {
        reveal_strlit(".db");
    }
    s.append(".db");
    assert(s@ =~= segment_name(id as nat));
    s
}

/// The segment id that a file name stands for: `Some(id)` exactly when the
/// name is `<id>.db` for a positive `id` written without leading zeros.
/// Other files in a segment directory are not segments.
pub fn parse_segment_name(name: &str) -> (r: Option<u64>)
    ensures
        r matches Some(id) ==> id > 0 && name@ == segment_name(id as nat),
        r is None ==> forall|id: u64| id > 0 ==> name@ != #[trigger] segment_name(id as nat),
{
    let n = name.unicode_len();
    if n < 4 || name.get_char(n - 3) != '.' || name.get_char(n - 2) != 'd' || name.get_char(n - 1)
        != 'b' || name.get_char(0) == '0' {
        proof {
            assert forall|id: u64| id > 0 implies name@ != #[trigger] segment_name(id as nat) by {
                lemma_decimal(id as nat);
                if name@ == segment_name(id as nat) {
                    assert(name@[n - 3] == '.');
                    assert(name@[n - 2] == 'd');
                    assert(name@[n - 1] == 'b');
                    assert(name@[0] == decimal(id as nat)[0]);
                    lemma_zero_first(id as nat);
                }
            }
        }
        return None;
    }
    let stem = name.substring_char(0, n - 3);
    let ghost ext = name@.subrange(n - 3, n as int);
    assert(ext =~= db_extension());
    assert(name@ =~= stem@ + ext);
    match parse_digits(stem) {
        Some(v) => {
            proof {
                assert(stem@[0] == name@[0]);
                lemma_canonical(stem@);
            }
            Some(v)
        },
        None => {
            proof {
                assert forall|id: u64| id > 0 implies name@ != #[trigger] segment_name(id as nat) by {
                    lemma_decimal(id as nat);
                    if name@ == segment_name(id as nat) {
                        assert(stem@ =~= decimal(id as nat));
                    }
                }
            }
            None
        },
    }
}

proof fn lemma_zero_first(id: nat)
    requires
        id > 0,
    ensures
        decimal(id)[0] != '0',
{
    lemma_decimal(id);
    let s = decimal(id);
    if s[0] == '0' {
        assert(s.len() == 1);
        assert(s.drop_last() =~= Seq::<char>::empty());
        assert(digits_value(s) == digits_value(s.drop_last()) * 10 + (s.last() as int - '0' as int) as nat);
    }
}

/// The two storage backends a server can run.
#[derive(Debug, Clone, Copy, PartialEq, Eq, Structural)]
pub enum EngineKind {
    Bitcask,
    Sled,
}

/// The backend named `name`: `bitcask` or `sled`; any other name is a `CliError`.
pub fn engine_kind(name: &str) -> (r: Result<EngineKind, HobbesError>)
    ensures
        name@ == seq!['b', 'i', 't', 'c', 'a', 's', 'k'] ==> (r matches Ok(k) && k
            == EngineKind::Bitcask),
        name@ == seq!['s', 'l', 'e', 'd'] ==> (r matches Ok(k) && k == EngineKind::Sled),
        name@ != seq!['b', 'i', 't', 'c', 'a', 's', 'k'] && name@ != seq!['s', 'l', 'e', 'd'] ==> (r matches Err(e) && e is CliError),
{
    proof {
        reveal_strlit("bitcask");
        reveal_strlit("sled");
    }
    let owned = name.to_string();
    if owned == "bitcask".to_string() {
        assert(name@ =~= seq!['b', 'i', 't', 'c', 'a', 's', 'k']);
        Ok(EngineKind::Bitcask)
    } else if owned == "sled".to_string() {
        assert(name@ =~= seq!['s', 'l', 'e', 'd']);
        Ok(EngineKind::Sled)
    } else {
        proof {
            assert("bitcask"@ =~= seq!['b', 'i', 't', 'c', 'a', 's', 'k']);
            assert("sled"@ =~= seq!['s', 'l', 'e', 'd']);
        }
        Err(HobbesError::CliError("invalid engine".to_string()))
    }
}

/// Whether the bitcask backend may open a root. The sibling backend's
/// directory under the root is a `BackendConflictError`; otherwise a root
/// path with an extension is an `InvalidPathError`.
pub fn check_bitcask_root(root_has_extension: bool, sled_store_exists: bool) -> (r: Result<
    (),
    HobbesError,
>)
    ensures
        sled_store_exists ==> (r matches Err(e) && e is BackendConflictError),
        !sled_store_exists && root_has_extension ==> (r matches Err(e) && e is InvalidPathError),
        !sled_store_exists && !root_has_extension ==> r is Ok,
{
    if sled_store_exists {
        Err(
            HobbesError::BackendConflictError(
                "the sled engine owns this root; the bitcask engine cannot open it".to_string(),
            ),
        )
    } else if root_has_extension {
        Err(HobbesError::InvalidPathError("the store root has an extension".to_string()))
    } else {
        Ok(())
    }
}

/// Whether the sled backend may open a root: the bitcask backend's log
/// directory under the root is a `BackendConflictError`.
pub fn check_sled_root(bitcask_logs_exist: bool) -> (r: Result<(), HobbesError>)
    ensures
        bitcask_logs_exist ==> (r matches Err(e) && e is BackendConflictError),
        !bitcask_logs_exist ==> r is Ok,
{
    if bitcask_logs_exist {
        Err(
            HobbesError::BackendConflictError(
                "the bitcask engine owns this root; the sled engine cannot open it".to_string(),
            ),
        )
    } else {
        Ok(())
    }
}

} // verus!
