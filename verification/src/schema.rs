use vstd::prelude::*;
use crate::bytes::bytes_eq;
use crate::types::{SearchError, MAX_FIELDS};

verus! {

/// One indexable field: a name and a non-negative relevance weight.
/// A zero weight excludes the field from scoring but not from existence
/// checks.
pub struct FieldDef {
    pub name: Vec<u8>,
    pub weight: u32,
}

/// The set of indexable fields and the normalization configuration an
/// index is built against. Fields are registered once and are immutable
/// for the lifetime of an index.
pub struct Schema {
    pub fields: Vec<FieldDef>,
}

/// Whether a field of the given name is registered.
pub open spec fn spec_has_field(fields: Seq<FieldDef>, name: Seq<u8>) -> bool {
    exists|i: int| 0 <= i < fields.len() && fields[i].name@ == name
}

/// Modulus and multiplier of the fingerprint hash; the modulus is a
/// prime below 2^32 so every hash state fits comfortably in a `u64`.
pub const HASH_MOD: u64 = 0xFFFFFFFB;

pub const HASH_MUL: u64 = 131;

pub const HASH_SEED: u64 = 5381;

pub open spec fn spec_hash_step(h: nat, v: nat) -> nat {
    (h * (HASH_MUL as nat) + v) % (HASH_MOD as nat)
}

pub open spec fn spec_hash_bytes(h: nat, s: Seq<u8>) -> nat
    decreases s.len(),
{
    if s.len() == 0 {
        h
    } else {
        spec_hash_bytes(spec_hash_step(h, s[0] as nat), s.skip(1))
    }
}

/// Folds one 32-bit value into the hash state, low byte first.
pub open spec fn spec_hash_u32(h: nat, v: nat) -> nat {
    spec_hash_step(
        spec_hash_step(
            spec_hash_step(spec_hash_step(h, v % 256), (v / 256) % 256),
            (v / 0x10000) % 256,
        ),
        (v / 0x1000000) % 256,
    )
}

/// Folds the field declarations into the hash state: for each field its
/// name, a separator, and its weight.
pub open spec fn spec_hash_fields(h: nat, fields: Seq<FieldDef>) -> nat
    decreases fields.len(),
{
    if fields.len() == 0 {
        h
    } else {
        let h1 = spec_hash_bytes(h, fields[0].name@);
        let h2 = spec_hash_step(h1, 0xFF);
        let h3 = spec_hash_u32(h2, fields[0].weight as nat);
        spec_hash_fields(h3, fields.skip(1))
    }
}

/// The schema fingerprint: a deterministic digest of the declared field
/// names and weights, stored in every index artifact so a stale or
/// foreign index is rejected instead of silently mis-scored.
pub open spec fn spec_fingerprint(fields: Seq<FieldDef>) -> nat {
    spec_hash_fields(HASH_SEED as nat, fields)
}

impl Schema {
    /// A schema is well formed when its field names are distinct and the
    /// field count respects the configured bound.
    pub open spec fn wf(self) -> bool {
        &&& self.fields@.len() <= MAX_FIELDS
        &&& forall|i: int, j: int|
            0 <= i < j < self.fields@.len() ==> self.fields@[i].name@ != self.fields@[j].name@
    }

    /// Creates a schema with no fields.
    pub fn new() -> (r: Schema)
        ensures
            r.wf(),
            r.fields@.len() == 0,
    {
        Schema { fields: Vec::new() }
    }

    /// Registers a field. Fails with `DuplicateFieldError` if and only
    /// if a field of the same name is already registered; on success the
    /// field is appended after the existing ones.
    pub fn define_field(&mut self, name: Vec<u8>, weight: u32) -> (r: Result<(), SearchError>)
        requires
            old(self).wf(),
            old(self).fields@.len() < MAX_FIELDS,
        ensures
            final(self).wf(),
            match r {
                Ok(()) => !spec_has_field(old(self).fields@, name@) && final(self).fields@ == old(
                    self,
                ).fields@.push((FieldDef { name, weight })),
                Err(e) => e == SearchError::DuplicateFieldError && spec_has_field(
                    old(self).fields@,
                    name@,
                ) && *final(self) == *old(self),
            },
    {
        let mut i: usize = 0;
        while i < self.fields.len()
            invariant
                *self == *old(self),
                old(self).wf(),
                i <= self.fields@.len(),
                forall|k: int| 0 <= k < i ==> self.fields@[k].name@ != name@,
            decreases self.fields@.len() - i,
        {
            if bytes_eq(&self.fields[i].name, &name) {
                return Err(SearchError::DuplicateFieldError);
            }
            i = i + 1;
        }
        self.fields.push(FieldDef { name, weight });
        Ok(())
    }

    /// Computes the fingerprint of this schema.
    pub fn fingerprint(&self) -> (r: u64)
        ensures
            r == spec_fingerprint(self.fields@),
    {
        let mut h: u64 = HASH_SEED;
        let mut i: usize = 0;
        proof {
            assert(self.fields@.skip(0) =~= self.fields@);
        }
        while i < self.fields.len()
            invariant
                i <= self.fields@.len(),
                h < HASH_MOD,
                spec_hash_fields(h as nat, self.fields@.skip(i as int)) == spec_fingerprint(
                    self.fields@,
                ),
            decreases self.fields@.len() - i,
        {
            proof {
                assert(self.fields@.skip(i as int)[0] == self.fields@[i as int]);
                assert(self.fields@.skip(i as int).skip(1) =~= self.fields@.skip(i as int + 1));
            }
            let ghost h0: nat = h as nat;
            let fname = &self.fields[i].name;
            let mut j: usize = 0;
            proof {
                assert(fname@.skip(0) =~= fname@);
            }
            while j < fname.len()
                invariant
                    j <= fname@.len(),
                    h < HASH_MOD,
                    spec_hash_bytes(h as nat, fname@.skip(j as int)) == spec_hash_bytes(h0, fname@),
                decreases fname@.len() - j,
            {
                proof {
                    assert(fname@.skip(j as int)[0] == fname@[j as int]);
                    assert(fname@.skip(j as int).skip(1) =~= fname@.skip(j as int + 1));
                }
                h = hash_step(h, fname[j] as u64);
                j = j + 1;
            }
            proof {
                assert(fname@.skip(j as int) =~= Seq::<u8>::empty());
            }
            h = hash_step(h, 0xFF);
            let w = self.fields[i].weight as u64;
            h = hash_step(h, w % 256);
            h = hash_step(h, (w / 256) % 256);
            h = hash_step(h, (w / 0x10000) % 256);
            h = hash_step(h, (w / 0x1000000) % 256);
            i = i + 1;
        }
        proof {
            assert(self.fields@.skip(i as int) =~= Seq::<FieldDef>::empty());
        }
        h
    }

    /// Checks a loaded index's stored fingerprint against this schema,
    /// failing with `SchemaMismatchError` exactly when they disagree.
    pub fn validate_against(&self, stored: u64) -> (r: Result<(), SearchError>)
        ensures
            match r {
                Ok(()) => stored == spec_fingerprint(self.fields@),
                Err(e) => e == SearchError::SchemaMismatchError && stored != spec_fingerprint(
                    self.fields@,
                ),
            },
    {
        let own = self.fingerprint();
        if stored == own {
            Ok(())
        } else {
            Err(SearchError::SchemaMismatchError)
        }
    }
}

/// One step of the fingerprint hash.
pub fn hash_step(h: u64, v: u64) -> (r: u64)
    requires
        h < HASH_MOD,
        v < 256,
    ensures
        r == spec_hash_step(h as nat, v as nat),
        r < HASH_MOD,
{
    proof {
        assert(h * HASH_MUL + v < u64::MAX) by (nonlinear_arith)
            requires
                h < HASH_MOD,
                v < 256,
        ;
    }
    (h * HASH_MUL + v) % HASH_MOD
}

} // verus!
