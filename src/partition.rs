use vstd::prelude::*;

verus! {

/// Type tag of an application partition.
pub const TYPE_APP: u8 = 0x00;

/// Type tag of a data partition.
pub const TYPE_DATA: u8 = 0x01;

/// Subtype of the data partition that holds the OTA descriptors.
pub const SUBTYPE_DATA_OTA: u8 = 0x00;

/// Subtype of the first OTA application slot; slot `n` has `SUBTYPE_APP_OTA_0 + n`.
pub const SUBTYPE_APP_OTA_0: u8 = 0x10;

/// One entry of the on-device partition table.
#[derive(Debug, Clone, PartialEq, Eq)]
pub struct PartitionEntry {
    pub type_: u8,
    pub subtype: u8,
    /// Flash offset of the partition's first byte.
    pub offset: u32,
    /// Size of the partition in bytes.
    pub size: u32,
    pub name: Vec<u8>,
}

/// Why a lookup in the partition table failed.
#[derive(Debug, Clone, Copy, PartialEq, Eq, Structural)]
pub enum ReadWritePartitionError {
    /// No entry matches.
    PartitionNotFound,
    /// More than one entry matches.
    PartitionFoundTwice,
}

/// What a lookup asks for.
pub enum PartitionKey<'a> {
    Name(&'a [u8]),
    Type(u8, u8),
}

impl<'a> PartitionKey<'a> {
    pub open spec fn matches(&self, e: PartitionEntry) -> bool {
        match *self {
            PartitionKey::Name(n) => e.name@ == n@,
            PartitionKey::Type(t, st) => e.type_ == t && e.subtype == st,
        }
    }

    fn matches_exec(&self, e: &PartitionEntry) -> (r: bool)
        ensures
            r == self.matches(*e),
    {
        match self {
            PartitionKey::Name(n) => bytes_eq(e.name.as_slice(), n),
            PartitionKey::Type(t, st) => e.type_ == *t && e.subtype == *st,
        }
    }
}

/// Two entries hold the same values.
pub open spec fn same_entry(a: PartitionEntry, b: PartitionEntry) -> bool {
    &&& a.type_ == b.type_
    &&& a.subtype == b.subtype
    &&& a.offset == b.offset
    &&& a.size == b.size
    &&& a.name@ == b.name@
}

/// Index `i` is the only entry of `table` that `key` matches.
pub open spec fn only_match(table: Seq<PartitionEntry>, key: PartitionKey, i: int) -> bool {
    &&& 0 <= i < table.len()
    &&& key.matches(table[i])
    &&& forall|j: int| 0 <= j < table.len() && j != i ==> !key.matches(#[trigger] table[j])
}

/// No entry of `table` matches `key`.
pub open spec fn no_match(table: Seq<PartitionEntry>, key: PartitionKey) -> bool {
    forall|j: int| 0 <= j < table.len() ==> !key.matches(#[trigger] table[j])
}

/// The outcome that a lookup of `key` in `table` owes: the single matching entry, or an
/// error when none or several match. Ambiguity is never resolved by taking the first.
pub open spec fn lookup_ok(
    table: Seq<PartitionEntry>,
    key: PartitionKey,
    r: Result<PartitionEntry, ReadWritePartitionError>,
) -> bool {
    match r {
        Ok(e) => exists|i: int| only_match(table, key, i) && same_entry(e, table[i]),
        Err(ReadWritePartitionError::PartitionNotFound) => no_match(table, key),
        Err(ReadWritePartitionError::PartitionFoundTwice) => exists|i: int, j: int|
            0 <= i < j < table.len() && key.matches(#[trigger] table[i]) && key.matches(
                #[trigger] table[j],
            ),
    }
}

/// Byte-wise equality.
pub fn bytes_eq(a: &[u8], b: &[u8]) -> (r: bool)
    ensures
        r == (a@ == b@),
{
    if a.len() != b.len() {
        return false;
    }
    let mut i: usize = 0;
    while i < a.len()
        invariant
            a@.len() == b@.len(),
            i <= a@.len(),
            forall|j: int| 0 <= j < i ==> a@[j] == b@[j],
        decreases a@.len() - i,
    {
        if a[i] != b[i] {
            return false;
        }
        i = i + 1;
    }
    assert(a@ =~= b@);
    true
}

impl PartitionEntry {
    /// A copy holding the same values.
    pub fn copy(&self) -> (r: PartitionEntry)
        ensures
            same_entry(r, *self),
    {
        let mut name: Vec<u8> = Vec::with_capacity(self.name.len());
        let mut i: usize = 0;
        while i < self.name.len()
            invariant
                i <= self.name@.len(),
                name@ == self.name@.subrange(0, i as int),
            decreases self.name@.len() - i,
        {
            name.push(self.name[i]);
            i = i + 1;
            assert(name@ =~= self.name@.subrange(0, i as int));
        }
        assert(self.name@.subrange(0, self.name@.len() as int) =~= self.name@);
        PartitionEntry {
            type_: self.type_,
            subtype: self.subtype,
            offset: self.offset,
            size: self.size,
            name,
        }
    }
}

/// Scans the whole table for the single entry that `key` matches.
pub fn find_partition(table: &[PartitionEntry], key: &PartitionKey) -> (r: Result<
    PartitionEntry,
    ReadWritePartitionError,
>)
    ensures
        lookup_ok(table@, *key, r),
{
    let mut found: Option<usize> = None;
    let mut i: usize = 0;
    while i < table.len()
        invariant
            i <= table@.len(),
            match found {
                None => forall|j: int| 0 <= j < i ==> !key.matches(#[trigger] table@[j]),
                Some(k) => k < i && key.matches(table@[k as int]) && forall|j: int|
                    0 <= j < i && j != k ==> !key.matches(#[trigger] table@[j]),
            },
        decreases table@.len() - i,
    {
        if key.matches_exec(&table[i]) {
            match found {
                None => {
                    found = Some(i);
                },
                Some(k) => {
                    assert(key.matches(table@[k as int]) && key.matches(table@[i as int]));
                    return Err(ReadWritePartitionError::PartitionFoundTwice);
                },
            }
        }
        i = i + 1;
    }
    match found {
        None => Err(ReadWritePartitionError::PartitionNotFound),
        Some(k) => {
            let e = table[k].copy();
            assert(only_match(table@, *key, k as int));
            Ok(e)
        },
    }
}

/// Finds the partition entry with the given name.
pub fn find_partition_name(table: &[PartitionEntry], name: &[u8]) -> (r: Result<
    PartitionEntry,
    ReadWritePartitionError,
>)
    ensures
        lookup_ok(table@, PartitionKey::Name(name), r),
{
    find_partition(table, &PartitionKey::Name(name))
}

/// Finds the partition entry with the given type and subtype.
pub fn find_partition_type(table: &[PartitionEntry], type_: u8, subtype: u8) -> (r: Result<
    PartitionEntry,
    ReadWritePartitionError,
>)
    ensures
        lookup_ok(table@, PartitionKey::Type(type_, subtype), r),
{
    find_partition(table, &PartitionKey::Type(type_, subtype))
}

} // verus!
