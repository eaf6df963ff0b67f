//! The core workload: turns a logical sequence number into a key string and
//! a record of fixed-width pseudo-random field values, and feeds them to the
//! storage engine.

use vstd::prelude::*;
use vstd::string::StringExecFns;
use rand::RngCore;
use crate::generators::{Generator, Constant, Counter};
use crate::db::{StdBTreeMapMutex, placed_row, reg_index, merge_rows, row_covers_fields};

verus! {

/// The character for one decimal digit.
pub open spec fn digit_char(d: nat) -> char {
    if d == 0 {
        '0'
    } else if d == 1 {
        '1'
    } else if d == 2 {
        '2'
    } else if d == 3 {
        '3'
    } else if d == 4 {
        '4'
    } else if d == 5 {
        '5'
    } else if d == 6 {
        '6'
    } else if d == 7 {
        '7'
    } else if d == 8 {
        '8'
    } else {
        '9'
    }
}

/// The decimal rendering of `n`, most significant digit first, no leading
/// zeros (a single `'0'` for zero).
pub open spec fn spec_decimal(n: nat) -> Seq<char>
    decreases n,
{
    if n < 10 {
        seq![digit_char(n)]
    } else {
        spec_decimal(n / 10).push(digit_char(n % 10))
    }
}

pub proof fn lemma_decimal_len_pos(n: nat)
    ensures
        spec_decimal(n).len() >= 1,
    decreases n,
{
    if n >= 10 {
        lemma_decimal_len_pos(n / 10);
    }
}

/// Distinct numbers have distinct decimal renderings.
pub proof fn lemma_decimal_injective(a: nat, b: nat)
    requires
        a != b,
    ensures
        spec_decimal(a) != spec_decimal(b),
    decreases a + b,
{
    if a < 10 && b < 10 {
        assert(digit_char(a) != digit_char(b));
        assert(spec_decimal(a)[0] == digit_char(a));
        assert(spec_decimal(b)[0] == digit_char(b));
    } else if a < 10 {
        lemma_decimal_len_pos(b / 10);
        assert(spec_decimal(b).len() >= 2);
        assert(spec_decimal(a).len() == 1);
    } else if b < 10 {
        lemma_decimal_len_pos(a / 10);
        assert(spec_decimal(a).len() >= 2);
        assert(spec_decimal(b).len() == 1);
    } else {
        if a % 10 != b % 10 {
            assert(digit_char(a % 10) != digit_char(b % 10));
            assert(spec_decimal(a).last() == digit_char(a % 10));
            assert(spec_decimal(b).last() == digit_char(b % 10));
            if spec_decimal(a) == spec_decimal(b) {
                assert(spec_decimal(a).last() == spec_decimal(b).last());
                assert(false);
            }
        } else {
            assert(a / 10 != b / 10);
            lemma_decimal_injective(a / 10, b / 10);
            if spec_decimal(a) == spec_decimal(b) {
                assert(spec_decimal(a).drop_last() =~= spec_decimal(a / 10));
                assert(spec_decimal(b).drop_last() =~= spec_decimal(b / 10));
                assert(false);
            }
        }
    }
}

/// The digits of a collected digit stack rendered last-pushed first.
pub open spec fn rev_digits(ds: Seq<u64>) -> Seq<char> {
    Seq::new(ds.len(), |i: int| digit_char(ds[ds.len() - 1 - i] as nat))
}

/// The decimal digits of `n`, least significant first, each below ten;
/// rendered in reverse they are exactly `spec_decimal(n)`.
pub fn u64_decimal_digits(n: u64) -> (ds: Vec<u64>)
    ensures
        rev_digits(ds@) == spec_decimal(n as nat),
        forall|i: int| 0 <= i < ds@.len() ==> #[trigger] ds@[i] < 10,
        ds@.len() == spec_decimal(n as nat).len(),
{
    let mut ds: Vec<u64> = Vec::new();
    let mut m: u64 = n;
    if m == 0 {
        ds.push(0);
        proof {
            assert(rev_digits(ds@) =~= spec_decimal(0));
        }
        return ds;
    }
    while m > 0
        invariant
            spec_decimal(n as nat) =~= (if m > 0 {
                spec_decimal(m as nat)
            } else {
                Seq::<char>::empty()
            }) + rev_digits(ds@),
            forall|i: int| 0 <= i < ds@.len() ==> #[trigger] ds@[i] < 10,
        decreases m,
    {
        let ghost pre = ds@;
        let d = m % 10;
        ds.push(d);
        proof {
            assert(rev_digits(ds@) =~= seq![digit_char(d as nat)] + rev_digits(pre));
        }
        let m0 = m;
        m = m / 10;
        proof {
            if m0 >= 10 {
                assert(spec_decimal(m0 as nat) == spec_decimal((m0 / 10) as nat).push(
                    digit_char((m0 % 10) as nat),
                ));
                assert(spec_decimal(m0 as nat) =~= spec_decimal((m0 / 10) as nat) + seq![
                    digit_char((m0 % 10) as nat),
                ]);
                assert(spec_decimal(n as nat) =~= spec_decimal(m as nat) + rev_digits(ds@));
            } else {
                assert(m == 0);
                assert(spec_decimal(m0 as nat) =~= seq![digit_char((m0 % 10) as nat)]);
                assert(spec_decimal(n as nat) =~= Seq::<char>::empty() + rev_digits(ds@));
            }
        }
    }
    proof {
        assert(spec_decimal(n as nat) =~= rev_digits(ds@));
    }
    ds
}

fn digit_str(d: u64) -> (r: &'static str)
    requires
        d < 10,
    ensures
        r@ == seq![digit_char(d as nat)],
{
    if d == 0 {
        proof {
            reveal_strlit("0");
            assert("0"@ =~= seq![digit_char(0)]);
        }
        "0"
    } else if d == 1 {
        proof {
            reveal_strlit("1");
            assert("1"@ =~= seq![digit_char(1)]);
        }
        "1"
    } else if d == 2 {
        proof {
            reveal_strlit("2");
            assert("2"@ =~= seq![digit_char(2)]);
        }
        "2"
    } else if d == 3 {
        proof {
            reveal_strlit("3");
            assert("3"@ =~= seq![digit_char(3)]);
        }
        "3"
    } else if d == 4 {
        proof {
            reveal_strlit("4");
            assert("4"@ =~= seq![digit_char(4)]);
        }
        "4"
    } else if d == 5 {
        proof {
            reveal_strlit("5");
            assert("5"@ =~= seq![digit_char(5)]);
        }
        "5"
    } else if d == 6 {
        proof {
            reveal_strlit("6");
            assert("6"@ =~= seq![digit_char(6)]);
        }
        "6"
    } else if d == 7 {
        proof {
            reveal_strlit("7");
            assert("7"@ =~= seq![digit_char(7)]);
        }
        "7"
    } else if d == 8 {
        proof {
            reveal_strlit("8");
            assert("8"@ =~= seq![digit_char(8)]);
        }
        "8"
    } else {
        proof {
            reveal_strlit("9");
            assert("9"@ =~= seq![digit_char(9)]);
        }
        "9"
    }
}

fn render_digits(ds: &Vec<u64>) -> (s: String)
    requires
        forall|i: int| 0 <= i < ds@.len() ==> #[trigger] ds@[i] < 10,
    ensures
        s@ == rev_digits(ds@),
{
    let ghost target = rev_digits(ds@);
    let mut s = String::new();
    let n = ds.len();
    let mut i: usize = n;
    while i > 0
        invariant
            forall|j: int| 0 <= j < ds@.len() ==> #[trigger] ds@[j] < 10,
            target == rev_digits(ds@),
            n == ds@.len(),
            i <= n,
            s@ =~= target.take(n - i),
        decreases i,
    {
        i = i - 1;
        let ghost pre = s@;
        s.append(digit_str(ds[i]));
        proof {
            assert(target[n - 1 - i] == digit_char(ds@[i as int] as nat));
            assert(s@ =~= target.take(n - i));
        }
    }
    proof {
        assert(s@ =~= target);
    }
    s
}

/// Renders `n` in decimal, most significant digit first.
pub fn u64_to_decimal(n: u64) -> (s: String)
    ensures
        s@ == spec_decimal(n as nat),
{
    let ds = u64_decimal_digits(n);
    render_digits(&ds)
}

pub const FNV_OFFSET_BASIS: u64 = 0xcbf29ce484222325;

pub const FNV_PRIME: u64 = 0x100000001b3;

/// One round of the 64-bit FNV-1a mix: fold one byte in, multiply by the
/// prime modulo two to the sixty-fourth.
pub open spec fn fnv_step(h: u64, b: u8) -> u64 {
    ((((h ^ (b as u64)) as nat) * (FNV_PRIME as nat)) % 0x10000000000000000) as u64
}

pub open spec fn fnv_rounds(m: u64, i: nat, h: u64) -> u64
    decreases 8 - i,
{
    if i >= 8 {
        h
    } else {
        fnv_rounds(m / 256, i + 1, fnv_step(h, (m % 256) as u8))
    }
}

/// The 64-bit FNV-1a hash of the eight little-endian bytes of `n`: the
/// fast, deterministic, non-cryptographic hash used for hashed insert
/// order.
pub open spec fn spec_fnv64(n: u64) -> u64 {
    fnv_rounds(n, 0, FNV_OFFSET_BASIS)
}

/// Hashes `n` over its eight little-endian bytes with 64-bit FNV-1a.
pub fn fnv1a_hash(n: u64) -> (h: u64)
    ensures
        h == spec_fnv64(n),
{
    let mut h: u64 = FNV_OFFSET_BASIS;
    let mut m: u64 = n;
    let mut i: usize = 0;
    while i < 8
        invariant
            i <= 8,
            spec_fnv64(n) == fnv_rounds(m, i as nat, h),
        decreases 8 - i,
    {
        let ghost h0 = h;
        let ghost m0 = m;
        let b: u8 = (m % 256) as u8;
        let prod: u128 = ((h ^ (b as u64)) as u128) * (FNV_PRIME as u128);
        h = (prod % 0x10000000000000000) as u64;
        m = m / 256;
        i = i + 1;
        proof {
            assert(h == fnv_step(h0, b));
            assert(fnv_rounds(m0, (i - 1) as nat, h0) == fnv_rounds(m, i as nat, h));
        }
    }
    h
}

/// The run of zeros that pads a rendering of length `len` out to the
/// configured minimum width `pad`.
pub open spec fn zero_pad(pad: nat, len: nat) -> Seq<char> {
    Seq::new(
        if pad > len {
            (pad - len) as nat
        } else {
            0
        },
        |i: int| '0',
    )
}

/// The number a key is built from: the sequence number itself under ordered
/// inserts, its hash otherwise.
pub open spec fn spec_keynum(ordered: bool, n: u64) -> u64 {
    if ordered {
        n
    } else {
        spec_fnv64(n)
    }
}

/// The key for sequence number `n`: the literal prefix, zeros up to the
/// configured minimum digit width, then the decimal rendering of the key
/// number.
pub open spec fn spec_key(ordered: bool, pad: nat, n: u64) -> Seq<char> {
    let ds = spec_decimal(spec_keynum(ordered, n) as nat);
    "user"@ + zero_pad(pad, ds.len()) + ds
}

/// The recognized workload options, already coerced to typed values by the
/// caller; absent keys take these documented defaults.
pub struct Properties {
    pub table: String,
    pub field_count: u32,
    pub field_name_prefix: String,
    pub field_length: u32,
    pub field_length_distribution: String,
    pub insert_start: u64,
    pub insert_order: String,
    pub zero_padding: u32,
}

impl Default for Properties {
    /// The documented default for every recognized workload option.
    fn default() -> (r: Properties)
        ensures
            r.table@ == "usertable"@,
            r.field_count == 10,
            r.field_name_prefix@ == "field"@,
            r.field_length == 100,
            r.field_length_distribution@ == "constant"@,
            r.insert_start == 0,
            r.insert_order@ == "hashed"@,
            r.zero_padding == 1,
    {
        Properties {
            table: "usertable".to_owned(),
            field_count: 10,
            field_name_prefix: "field".to_owned(),
            field_length: 100,
            field_length_distribution: "constant".to_owned(),
            insert_start: 0,
            insert_order: "hashed".to_owned(),
            zero_padding: 1,
        }
    }
}

/// The configuration error raised at startup: the one field-length
/// distribution supported here is `"constant"`.
#[derive(PartialEq, Eq, Structural, Clone, Copy, Debug)]
pub enum ConfigError {
    UnsupportedFieldLengthDistribution,
}

/// Relies on rand::RngCore::fill_bytes through rand::thread_rng: fills the
/// whole buffer with bytes from the thread-local generator, so only the
/// length of the result can be promised.
#[verifier::external_body]
fn random_bytes(len: usize) -> (r: Vec<u8>)
    ensures
        r@.len() == len,
{
    let mut v = vec![0u8; len];
    rand::thread_rng().fill_bytes(&mut v);
    v
}

/// The core workload: a shared key sequence, the field-name roster, and the
/// field-length generator, all fixed at construction.
pub struct CoreWorkload {
    props: Properties,
    key_sequence: Counter,
    ordered_inserts: bool,
    field_length_generator: Constant,
    field_names: Vec<String>,
}

impl CoreWorkload {
    /// The next sequence number the shared key sequence will hand out.
    pub closed spec fn spec_key_counter(self) -> u64 {
        self.key_sequence.spec_value()
    }

    pub closed spec fn spec_ordered_inserts(self) -> bool {
        self.ordered_inserts
    }

    pub closed spec fn spec_zero_padding(self) -> u32 {
        self.props.zero_padding
    }

    pub closed spec fn spec_field_length(self) -> u32 {
        self.props.field_length
    }

    pub closed spec fn spec_field_names(self) -> Seq<Seq<char>> {
        self.field_names.deep_view()
    }

    pub closed spec fn spec_table_name(self) -> Seq<char> {
        self.props.table@
    }

    /// The parts of the workload that never change after construction.
    pub open spec fn spec_config(self) -> (Seq<Seq<char>>, bool, u32, u32, Seq<char>) {
        (
            self.spec_field_names(),
            self.spec_ordered_inserts(),
            self.spec_zero_padding(),
            self.spec_field_length(),
            self.spec_table_name(),
        )
    }

    /// Construction establishes this and every operation preserves it: the
    /// field-length generator always draws the configured length, and no
    /// two field names are the same.
    pub closed spec fn wf(self) -> bool {
        &&& self.field_length_generator.spec_value() == self.props.field_length as u64
        &&& forall|i: int, j: int|
            0 <= i < j < self.spec_field_names().len() ==> self.spec_field_names()[i]
                != self.spec_field_names()[j]
    }

    /// Builds the workload: field names are the prefix followed by the
    /// field's number, the key sequence starts at `insertstart`, and any
    /// field-length distribution but `"constant"` is a configuration
    /// error.
    pub fn new(props: Properties) -> (r: Result<CoreWorkload, ConfigError>)
        ensures
            (r is Ok) == (props.field_length_distribution@ == "constant"@),
            r is Err ==> r->Err_0 == ConfigError::UnsupportedFieldLengthDistribution,
            r is Ok ==> (r->Ok_0).wf() && (r->Ok_0).spec_key_counter() == props.insert_start && (
            r->Ok_0).spec_ordered_inserts() == (props.insert_order@ != "hashed"@) && (
            r->Ok_0).spec_zero_padding() == props.zero_padding && (r->Ok_0).spec_field_length()
                == props.field_length && (r->Ok_0).spec_table_name() == props.table@ && (
            r->Ok_0).spec_field_names().len() == props.field_count && (forall|i: int|
                0 <= i < props.field_count ==> (r->Ok_0).spec_field_names()[i]
                    == props.field_name_prefix@ + spec_decimal(i as nat)),
    {
        if !(props.field_length_distribution == "constant".to_owned()) {
            return Err(ConfigError::UnsupportedFieldLengthDistribution);
        }
        let key_sequence = Counter::new(props.insert_start);
        let ordered_inserts = !(props.insert_order == "hashed".to_owned());
        let field_length_generator = Constant::new(props.field_length as u64);
        let mut field_names: Vec<String> = Vec::new();
        let mut i: u32 = 0;
        while i < props.field_count
            invariant
                i <= props.field_count,
                field_names.deep_view().len() == i,
                forall|k: int|
                    0 <= k < i ==> field_names.deep_view()[k] == props.field_name_prefix@
                        + spec_decimal(k as nat),
            decreases props.field_count - i,
        {
            let ghost pre = field_names.deep_view();
            let mut name = props.field_name_prefix.clone();
            let suffix = u64_to_decimal(i as u64);
            name.append(suffix.as_str());
            proof {
                assert(name@ == props.field_name_prefix@ + spec_decimal(i as nat));
            }
            field_names.push(name);
            proof {
                assert(field_names.deep_view() =~= pre.push(name@));
            }
            i = i + 1;
        }
        proof {
            assert forall|a: int, b: int|
                0 <= a < b < field_names.deep_view().len() implies field_names.deep_view()[a]
                != field_names.deep_view()[b] by {
                lemma_decimal_injective(a as nat, b as nat);
                let p = props.field_name_prefix@;
                let sa = p + spec_decimal(a as nat);
                let sb = p + spec_decimal(b as nat);
                if sa == sb {
                    assert(sa.subrange(p.len() as int, sa.len() as int) =~= spec_decimal(a as nat));
                    assert(sb.subrange(p.len() as int, sb.len() as int) =~= spec_decimal(b as nat));
                    assert(false);
                }
            }
        }
        Ok(
            CoreWorkload {
                props,
                key_sequence,
                ordered_inserts,
                field_length_generator,
                field_names,
            },
        )
    }

    /// The core workload keeps no per-worker state, so seeing the worker's
    /// slot changes nothing.
    pub fn init(&self, _thread_idx: u32, _thread_count: u32) {
    }

    /// The next sequence number the key sequence will hand out.
    pub fn key_counter(&self) -> (r: u64)
        ensures
            r == self.spec_key_counter(),
    {
        self.key_sequence.peek()
    }

    /// How many field names each record carries.
    pub fn field_name_count(&self) -> (r: usize)
        ensures
            r == self.spec_field_names().len(),
    {
        self.field_names.len()
    }

    /// Builds the key for sequence number `n`: render `n` (or its hash,
    /// under hashed insert order) in decimal, pad with zeros to the
    /// configured minimum width, and put the fixed prefix in front.
    pub fn build_key(&self, n: u64) -> (key: String)
        ensures
            key@ == spec_key(self.spec_ordered_inserts(), self.spec_zero_padding() as nat, n),
    {
        let keynum: u64 = if self.ordered_inserts {
            n
        } else {
            fnv1a_hash(n)
        };
        let ds = u64_decimal_digits(keynum);
        let dlen = ds.len();
        let pad = self.props.zero_padding as usize;
        let fill: usize = if pad > dlen {
            pad - dlen
        } else {
            0
        };
        let mut key = "user".to_owned();
        let ghost zeros = zero_pad(pad as nat, dlen as nat);
        proof {
            assert(zeros.len() == fill);
        }
        let mut j: usize = 0;
        while j < fill
            invariant
                j <= fill,
                zeros.len() == fill,
                forall|q: int| 0 <= q < zeros.len() ==> zeros[q] == '0',
                key@ =~= "user"@ + zeros.take(j as int),
            decreases fill - j,
        {
            key.append("0");
            proof {
                reveal_strlit("0");
                assert("0"@ =~= seq!['0']);
                assert(key@ =~= "user"@ + zeros.take(j + 1));
            }
            j = j + 1;
        }
        let rendered = render_digits(&ds);
        key.append(rendered.as_str());
        proof {
            assert(zeros.take(fill as int) =~= zeros);
            assert(key@ =~= "user"@ + zero_pad(self.props.zero_padding as nat, dlen as nat)
                + spec_decimal(keynum as nat));
        }
        key
    }

    /// Builds one record: every configured field name paired with a fresh
    /// pseudo-random byte string of the configured length.
    pub fn build_values(&self) -> (values: Vec<(String, Vec<u8>)>)
        requires
            self.wf(),
        ensures
            values.deep_view().len() == self.spec_field_names().len(),
            forall|i: int|
                0 <= i < values.deep_view().len() ==> (#[trigger] values.deep_view()[i]).0
                    == self.spec_field_names()[i] && values.deep_view()[i].1.len()
                    == self.spec_field_length(),
    {
        let mut values: Vec<(String, Vec<u8>)> = Vec::new();
        let count = self.field_names.len();
        let mut i: usize = 0;
        while i < count
            invariant
                self.wf(),
                count == self.spec_field_names().len(),
                i <= count,
                values.deep_view().len() == i,
                forall|k: int|
                    0 <= k < i ==> (#[trigger] values.deep_view()[k]).0
                        == self.spec_field_names()[k] && values.deep_view()[k].1.len()
                        == self.spec_field_length(),
            decreases count - i,
        {
            let mut gen = self.field_length_generator;
            let len64 = gen.next();
            proof {
                assert(len64 == self.spec_field_length() as u64);
            }
            let len = len64 as usize;
            let bytes = random_bytes(len);
            let name = self.field_names[i].clone();
            let ghost pre = values.deep_view();
            proof {
                assert(name@ == self.spec_field_names()[i as int]);
                assert(bytes.deep_view() =~= bytes@);
            }
            values.push((name, bytes));
            proof {
                assert(values.deep_view() =~= pre.push((name@, bytes@)));
            }
            i = i + 1;
        }
        values
    }

    /// Performs one insert: draw the next sequence number, build its key
    /// and a fresh record, and put them into the engine. The key sequence
    /// advances by one; the table gains (or overlays) exactly the row for
    /// that key, which afterwards holds a byte string of the configured
    /// length in every configured field's column.
    pub fn do_insert(&mut self, db: &mut StdBTreeMapMutex)
        requires
            old(self).wf(),
            old(self).spec_key_counter() < u64::MAX,
            old(db).wf(),
            old(db).columns@.len() + old(self).spec_field_names().len() <= usize::MAX,
            old(db).db.spec_len() < usize::MAX,
        ensures
            final(self).wf(),
            final(self).spec_key_counter() == old(self).spec_key_counter() + 1,
            final(self).spec_config() == old(self).spec_config(),
            final(db).wf(),
            old(db).columns@.is_prefix_of(final(db).columns@),
            final(db).columns@.len() <= old(db).columns@.len() + old(self).spec_field_names().len(),
            forall|i: int|
                0 <= i < old(self).spec_field_names().len() ==> final(db).columns@.contains(
                    #[trigger] old(self).spec_field_names()[i],
                ),
            (forall|i: int|
                0 <= i < old(self).spec_field_names().len() ==> old(db).columns@.contains(
                    #[trigger] old(self).spec_field_names()[i],
                )) ==> final(db).columns@ == old(db).columns@,
            final(db).db.spec_contains_key(
                spec_key(
                    old(self).spec_ordered_inserts(),
                    old(self).spec_zero_padding() as nat,
                    old(self).spec_key_counter(),
                ),
            ),
            final(db).db.spec_len() == old(db).db.spec_len() + if old(db).db.spec_contains_key(
                spec_key(
                    old(self).spec_ordered_inserts(),
                    old(self).spec_zero_padding() as nat,
                    old(self).spec_key_counter(),
                ),
            ) {
                0int
            } else {
                1int
            },
            forall|k: Seq<char>|
                k != spec_key(
                    old(self).spec_ordered_inserts(),
                    old(self).spec_zero_padding() as nat,
                    old(self).spec_key_counter(),
                ) ==> final(db).db.spec_contains_key(k) == old(db).db.spec_contains_key(k),
            forall|k: Seq<char>|
                k != spec_key(
                    old(self).spec_ordered_inserts(),
                    old(self).spec_zero_padding() as nat,
                    old(self).spec_key_counter(),
                ) && old(db).db.spec_contains_key(k) ==> final(db).db.spec_row_of(k) == old(
                    db,
                ).db.spec_row_of(k),
            row_covers_fields(
                final(db).columns@,
                old(self).spec_field_names(),
                final(db).db.spec_row_of(
                    spec_key(
                        old(self).spec_ordered_inserts(),
                        old(self).spec_zero_padding() as nat,
                        old(self).spec_key_counter(),
                    ),
                ),
                old(self).spec_field_length() as nat,
            ),
    {
        let n = self.key_sequence.next();
        let key = self.build_key(n);
        let ghost keyv = key@;
        let values = self.build_values();
        let ghost vdv = values.deep_view();
        let _ = db.insert(self.props.table.as_str(), key, values);
        proof {
            let names = old(self).spec_field_names();
            let c1 = final(db).columns@;
            let rv = choose|rv: Seq<Option<Seq<u8>>>|
                placed_row(c1, vdv, rv) && final(db).db.spec_row_of(keyv) == merge_rows(
                    if old(db).db.spec_contains_key(keyv) {
                        old(db).db.spec_row_of(keyv)
                    } else {
                        Seq::<Option<Seq<u8>>>::empty()
                    },
                    rv,
                );
            assert(placed_row(c1, vdv, rv));
            let merged = final(db).db.spec_row_of(keyv);
            assert forall|i: int| 0 <= i < names.len() implies {
                let col = reg_index(c1, #[trigger] names[i]);
                &&& 0 <= col < merged.len()
                &&& merged[col] is Some
                &&& merged[col]->0.len() == old(self).spec_field_length()
            } by {
                assert(vdv[i].0 == names[i]);
                assert(c1.contains(vdv[i].0));
                let col = reg_index(c1, names[i]);
                assert(0 <= col < c1.len() && c1[col] == names[i]);
                assert forall|j: int|
                    i < j < vdv.len() implies (#[trigger] vdv[j].0) != vdv[i].0 by {
                    assert(vdv[j].0 == names[j]);
                }
                assert(rv[col] == Some(vdv[i].1));
                assert(col < rv.len());
                assert(merged[col] == rv[col]);
                assert(vdv[i].1.len() == old(self).spec_field_length());
            }
            assert forall|i: int| 0 <= i < names.len() implies final(db).columns@.contains(
                #[trigger] names[i],
            ) by {
                assert(vdv[i].0 == names[i]);
            }
            if forall|i: int|
                0 <= i < names.len() ==> old(db).columns@.contains(#[trigger] names[i]) {
                assert forall|i: int| 0 <= i < vdv.len() implies old(db).columns@.contains(
                    #[trigger] vdv[i].0,
                ) by {
                    assert(vdv[i].0 == names[i]);
                }
            }
        }
    }
}

} // verus!
