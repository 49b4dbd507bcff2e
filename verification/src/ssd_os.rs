//! The fixed-size name fields by which the platform registers stages and
//! connectors, and looks them up.

use vstd::prelude::*;

verus! {

/// The tag at the start of every stage record.
pub const MAGIC_STAGE: [u8; 4] = [115u8, 116u8, 103u8, 0u8];

/// The tag at the start of every connector record.
pub const MAGIC_CONNECTOR: [u8; 4] = [99u8, 111u8, 110u8, 0u8];

/// The name field that holds `name`: its bytes, then zeros up to 32 bytes.
pub open spec fn name_field(name: Seq<u8>) -> Seq<u8> {
    Seq::new(32, |i: int| if i < name.len() { name[i] } else { 0u8 })
}

/// Builds the name field of a stage or connector called `name`, which must
/// fit in it.
pub fn encode_name(name: &[u8]) -> (buf: [u8; 32])
    requires
        name@.len() <= 32,
    ensures
        buf@ == name_field(name@),
{
    let mut buf = [0u8; 32];
    let mut i: usize = 0;
    while i < name.len()
        invariant
            name@.len() <= 32,
            i <= name@.len(),
            buf@.len() == 32,
            forall|k: int| 0 <= k < 32 ==> #[trigger] buf@[k] == if k < i { name@[k] } else { 0u8 },
        decreases name@.len() - i,
    {
        buf[i] = name[i];
        i = i + 1;
    }
    assert(buf@ =~= name_field(name@));
    buf
}

/// The length of the name in a name field: the bytes before its first
/// zero. A field with no zero holds no valid name, which reads as empty.
pub fn name_len(buf: &[u8; 32]) -> (n: usize)
    ensures
        n <= 32,
        (exists|k: int| 0 <= k < 32 && buf@[k] == 0) ==> {
            &&& buf@[n as int] == 0
            &&& forall|k: int| 0 <= k < n ==> #[trigger] buf@[k] != 0
        },
        (forall|k: int| 0 <= k < 32 ==> #[trigger] buf@[k] != 0) ==> n == 0,
{
    let mut i: usize = 0;
    while i < 32
        invariant
            i <= 32,
            buf@.len() == 32,
            forall|k: int| 0 <= k < i ==> #[trigger] buf@[k] != 0,
        decreases 32 - i,
    {
        if buf[i] == 0 {
            return i;
        }
        i = i + 1;
    }
    0
}

/// Law: the name stored in a name field is read back as it was, when it is
/// shorter than the field and holds no zero byte.
pub proof fn lemma_name_round_trip(name: Seq<u8>, n: usize)
    requires
        name.len() < 32,
        forall|k: int| 0 <= k < name.len() ==> #[trigger] name[k] != 0,
        name_field(name)[n as int] == 0,
        n <= 32,
        forall|k: int| 0 <= k < n ==> #[trigger] name_field(name)[k] != 0,
    ensures
        n == name.len(),
        name_field(name).subrange(0, n as int) == name,
{
    if n < name.len() {
        assert(name_field(name)[n as int] == name[n as int]);
    }
    if n > name.len() {
        assert(name_field(name)[name.len() as int] == 0);
    }
    assert(name_field(name).subrange(0, n as int) =~= name);
}

} // verus!
