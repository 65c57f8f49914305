//! Bytes of two nibbles: the selector bits of a byte nibble by nibble, the
//! byte that a masked byte stands for, and the four ground operations on
//! bytes.

use crate::bits::{as_bools, digit};
use crate::operations::mask_chunk::{
    lemma_unmask_round_trip, mask_decode, masking_chunk_msb_decode, selector_bits,
};
use crate::operations::operand::{op_value, ArithmeticOp as WordOp};
use crate::opmized_operations::compare::encode_vec_nibbles;
use vstd::arithmetic::power2::*;
use vstd::prelude::*;
use vstd::slice::slice_subrange;

verus! {

/// The byte whose masked form is `encoded`, each nibble masked on its own.
pub fn decode_special_encoded_byte(encoded: u8) -> (byte: u8)
    ensures
        byte == mask_decode(encoded as nat, 4, 8),
{
    proof {
        lemma_unmask_round_trip(encoded as nat, 4, 8);
        lemma2_to64();
    }
    masking_chunk_msb_decode(encoded as usize, 4, 8) as u8
}

/// The selector bits of a byte, the most significant first: those of the
/// high nibble, and those of the low nibble.
pub fn encode_special_byte(input: u8) -> (nibbles: ([u64; 4], [u64; 4]))
    ensures
        forall|i: int|
            0 <= i < 4 ==> #[trigger] nibbles.0[i] == digit(selector_bits(input as nat, 4, 8)[i]),
        forall|i: int|
            0 <= i < 4 ==> #[trigger] nibbles.1[i] == digit(
                selector_bits(input as nat, 4, 8)[4 + i],
            ),
{
    let bits = encode_vec_nibbles(input as usize, 8);
    proof {
        assert forall|i: int| 0 <= i < 8 implies #[trigger] bits[i] == digit(
            selector_bits(input as nat, 4, 8)[i],
        ) by {
            assert(as_bools(bits@)[i] == (bits[i] != 0));
        }
    }
    let high_bits: [u64; 4] = [bits[0] as u64, bits[1] as u64, bits[2] as u64, bits[3] as u64];
    let low_bits: [u64; 4] = [bits[4] as u64, bits[5] as u64, bits[6] as u64, bits[7] as u64];
    (high_bits, low_bits)
}

/// The four ground operations.
#[derive(Debug, Clone, Copy, PartialEq, Eq, Hash, Structural)]
pub enum ArithmeticOp {
    Add,
    Sub,
    Mul,
    Div,
}

impl ArithmeticOp {
    /// The opcode of the engine that stands for this operation.
    pub open spec fn opcode(&self) -> WordOp {
        match self {
            ArithmeticOp::Add => WordOp::Add,
            ArithmeticOp::Sub => WordOp::Sub,
            ArithmeticOp::Mul => WordOp::Mul,
            ArithmeticOp::Div => WordOp::Div,
        }
    }

    /// The operation on two bytes: wrapping round at 256, and zero for a
    /// division by zero.
    pub fn compute(&self, a: u8, b: u8) -> (r: u8)
        ensures
            r == op_value(self.opcode(), a as nat, b as nat, 8),
    {
        proof {
            lemma2_to64();
        }
        let op = match self {
            ArithmeticOp::Add => WordOp::Add,
            ArithmeticOp::Sub => WordOp::Sub,
            ArithmeticOp::Mul => WordOp::Mul,
            ArithmeticOp::Div => WordOp::Div,
        };
        op.compute(a as u64, b as u64, 8) as u8
    }

    /// The name of the operation.
    pub fn name(&self) -> (name: &'static str)
        ensures
            name@ == (match self {
                ArithmeticOp::Add => "addition"@,
                ArithmeticOp::Sub => "subtraction"@,
                ArithmeticOp::Mul => "multiplication"@,
                ArithmeticOp::Div => "division"@,
            }),
    {
        match self {
            ArithmeticOp::Add => "addition",
            ArithmeticOp::Sub => "subtraction",
            ArithmeticOp::Mul => "multiplication",
            ArithmeticOp::Div => "division",
        }
    }
}

/// The result that the tables of an operation hold at an index: the
/// operation on the plain operand, which is the index divided by 256, and the
/// byte whose masked form is the rest.
pub open spec fn table_result(operation: ArithmeticOp, index: nat) -> nat {
    op_value(operation.opcode(), index / 256, mask_decode(index % 256, 4, 8), 8)
}

/// The tables of one operation on a plain byte and a masked byte: one table
/// of the low nibbles of the results and one of the high nibbles, each with
/// an entry for every pair.
pub struct ArithmeticLookupTables {
    low_nibble_table: Vec<u64>,
    high_nibble_table: Vec<u64>,
    operation: ArithmeticOp,
}

/// The two nibble tables hold the nibbles of the results of `operation`,
/// from index `start` on and for `count` indices.
pub open spec fn nibbles_of(
    low: Seq<u64>,
    high: Seq<u64>,
    operation: ArithmeticOp,
    start: nat,
    count: nat,
) -> bool {
    &&& low.len() == count
    &&& high.len() == count
    &&& forall|i: int|
        0 <= i < count ==> {
            &&& #[trigger] low[i] == table_result(operation, start + i as nat) % 16
            &&& high[i] == (table_result(operation, start + i as nat) / 16) % 16
        }
}

impl ArithmeticLookupTables {
    #[verifier::type_invariant]
    spec fn complete(self) -> bool {
        nibbles_of(self.low_nibble_table@, self.high_nibble_table@, self.operation, 0, 65536)
    }

    /// The operation of the tables.
    pub closed spec fn operation(&self) -> ArithmeticOp {
        self.operation
    }

    /// The table of the low nibbles.
    pub closed spec fn low(&self) -> Seq<u64> {
        self.low_nibble_table@
    }

    /// The table of the high nibbles.
    pub closed spec fn high(&self) -> Seq<u64> {
        self.high_nibble_table@
    }

    /// The tables of an operation.
    pub fn new(operation: ArithmeticOp) -> (tables: Self)
        ensures
            tables.operation() == operation,
    {
        let (low_nibble_table, high_nibble_table) = Self::generate_tables(operation);
        ArithmeticLookupTables { low_nibble_table, high_nibble_table, operation }
    }

    fn generate_tables(operation: ArithmeticOp) -> (tables: (Vec<u64>, Vec<u64>))
        ensures
            nibbles_of(tables.0@, tables.1@, operation, 0, 65536),
    {
        let table_size: usize = 256 * 256;
        let mut low_nibble_table: Vec<u64> = Vec::with_capacity(table_size);
        let mut high_nibble_table: Vec<u64> = Vec::with_capacity(table_size);
        let mut index: usize = 0;
        while index < table_size
            invariant
                index <= table_size,
                table_size == 65536,
                nibbles_of(low_nibble_table@, high_nibble_table@, operation, 0, index as nat),
            decreases table_size - index,
        {
            let normal_input = (index / 256) as u8;
            let encoded_input = (index % 256) as u8;
            let decoded_input = decode_special_encoded_byte(encoded_input);
            let result = operation.compute(normal_input, decoded_input);
            low_nibble_table.push((result % 16) as u64);
            high_nibble_table.push(((result / 16) % 16) as u64);
            index += 1;
        }
        (low_nibble_table, high_nibble_table)
    }

    pub fn get_operation(&self) -> (operation: ArithmeticOp)
        ensures
            operation == self.operation(),
    {
        self.operation
    }

    /// The part of the tables that belongs to one plain byte.
    pub fn get_subtable(&self, normal_input: u8) -> (subtable: ArithmeticSubTable<'_>)
        ensures
            subtable.normal_input() == normal_input,
            subtable.operation() == self.operation(),
            subtable.low() == self.low().subrange(
                normal_input as int * 256,
                normal_input as int * 256 + 256,
            ),
            subtable.high() == self.high().subrange(
                normal_input as int * 256,
                normal_input as int * 256 + 256,
            ),
    {
        proof {
            use_type_invariant(self);
        }
        let subtable_start = (normal_input as usize) * 256;
        let low = slice_subrange(
            self.low_nibble_table.as_slice(),
            subtable_start,
            subtable_start + 256,
        );
        let high = slice_subrange(
            self.high_nibble_table.as_slice(),
            subtable_start,
            subtable_start + 256,
        );
        proof {
            assert forall|i: int| 0 <= i < 256 implies {
                &&& #[trigger] low@[i] == table_result(
                    self.operation,
                    (normal_input as nat * 256 + i as nat) as nat,
                ) % 16
                &&& high@[i] == (table_result(
                    self.operation,
                    (normal_input as nat * 256 + i as nat) as nat,
                ) / 16) % 16
            } by {
                assert(low@[i] == self.low_nibble_table@[subtable_start + i]);
                assert(high@[i] == self.high_nibble_table@[subtable_start + i]);
            }
        }
        ArithmeticSubTable {
            low_nibble_data: low,
            high_nibble_data: high,
            normal_input,
            operation: self.operation,
        }
    }

    /// The low and the high nibble of the operation on the plain byte
    /// `normal_input` and the byte whose masked form is `encoded_input`.
    pub fn lookup(&self, normal_input: u8, encoded_input: u8) -> (nibbles: (u64, u64))
        ensures
            nibbles.0 == table_result(
                self.operation(),
                (normal_input as nat * 256 + encoded_input as nat) as nat,
            ) % 16,
            nibbles.1 == (table_result(
                self.operation(),
                (normal_input as nat * 256 + encoded_input as nat) as nat,
            ) / 16) % 16,
    {
        proof {
            use_type_invariant(self);
        }
        let index = (normal_input as usize) * 256 + (encoded_input as usize);
        (self.low_nibble_table[index], self.high_nibble_table[index])
    }

    pub fn get_low_nibble_table(&self) -> (table: &[u64])
        ensures
            table@ == self.low(),
    {
        self.low_nibble_table.as_slice()
    }

    pub fn get_high_nibble_table(&self) -> (table: &[u64])
        ensures
            table@ == self.high(),
    {
        self.high_nibble_table.as_slice()
    }

    /// The bytes that the two tables take up.
    pub fn memory_usage(&self) -> (bytes: usize)
        ensures
            bytes == 1048576,
    {
        proof {
            use_type_invariant(self);
        }
        (self.low_nibble_table.len() + self.high_nibble_table.len()) * 8
    }
}

/// The part of the tables of an operation that belongs to one plain byte.
pub struct ArithmeticSubTable<'a> {
    low_nibble_data: &'a [u64],
    high_nibble_data: &'a [u64],
    normal_input: u8,
    operation: ArithmeticOp,
}

impl<'a> ArithmeticSubTable<'a> {
    #[verifier::type_invariant]
    spec fn complete(self) -> bool {
        nibbles_of(
            self.low_nibble_data@,
            self.high_nibble_data@,
            self.operation,
            self.normal_input as nat * 256,
            256,
        )
    }

    pub closed spec fn normal_input(&self) -> u8 {
        self.normal_input
    }

    pub closed spec fn operation(&self) -> ArithmeticOp {
        self.operation
    }

    pub closed spec fn low(&self) -> Seq<u64> {
        self.low_nibble_data@
    }

    pub closed spec fn high(&self) -> Seq<u64> {
        self.high_nibble_data@
    }

    /// The result of the operation on the plain byte of this part and the
    /// byte whose masked form is `encoded_input`.
    pub open spec fn result(&self, encoded_input: u8) -> nat {
        table_result(
            self.operation(),
            (self.normal_input() as nat * 256 + encoded_input as nat) as nat,
        )
    }

    pub fn lookup(&self, encoded_input: u8) -> (nibbles: (u64, u64))
        ensures
            nibbles.0 == self.result(encoded_input) % 16,
            nibbles.1 == (self.result(encoded_input) / 16) % 16,
    {
        proof {
            use_type_invariant(self);
        }
        let index = encoded_input as usize;
        (self.low_nibble_data[index], self.high_nibble_data[index])
    }

    pub fn lookup_low_nibble(&self, encoded_input: u8) -> (nibble: u64)
        ensures
            nibble == self.result(encoded_input) % 16,
    {
        proof {
            use_type_invariant(self);
        }
        self.low_nibble_data[encoded_input as usize]
    }

    pub fn lookup_high_nibble(&self, encoded_input: u8) -> (nibble: u64)
        ensures
            nibble == (self.result(encoded_input) / 16) % 16,
    {
        proof {
            use_type_invariant(self);
            let low = self.low_nibble_data@[encoded_input as int];
        }
        self.high_nibble_data[encoded_input as usize]
    }

    pub fn lookup_batch(&self, encoded_inputs: &[u8]) -> (nibbles: Vec<(u64, u64)>)
        ensures
            nibbles.len() == encoded_inputs.len(),
            forall|i: int|
                0 <= i < nibbles.len() ==> {
                    &&& (#[trigger] nibbles[i]).0 == self.result(encoded_inputs[i]) % 16
                    &&& nibbles[i].1 == (self.result(encoded_inputs[i]) / 16) % 16
                },
    {
        let mut nibbles: Vec<(u64, u64)> = Vec::with_capacity(encoded_inputs.len());
        let mut i: usize = 0;
        while i < encoded_inputs.len()
            invariant
                i <= encoded_inputs.len(),
                nibbles.len() == i,
                forall|j: int|
                    0 <= j < i ==> {
                        &&& (#[trigger] nibbles[j]).0 == self.result(encoded_inputs[j]) % 16
                        &&& nibbles[j].1 == (self.result(encoded_inputs[j]) / 16) % 16
                    },
            decreases encoded_inputs.len() - i,
        {
            nibbles.push(self.lookup(encoded_inputs[i]));
            i += 1;
        }
        nibbles
    }

    pub fn lookup_low_nibble_batch(&self, encoded_inputs: &[u8]) -> (nibbles: Vec<u64>)
        ensures
            nibbles.len() == encoded_inputs.len(),
            forall|i: int|
                0 <= i < nibbles.len() ==> #[trigger] nibbles[i] == self.result(encoded_inputs[i])
                    % 16,
    {
        let mut nibbles: Vec<u64> = Vec::with_capacity(encoded_inputs.len());
        let mut i: usize = 0;
        while i < encoded_inputs.len()
            invariant
                i <= encoded_inputs.len(),
                nibbles.len() == i,
                forall|j: int|
                    0 <= j < i ==> #[trigger] nibbles[j] == self.result(encoded_inputs[j]) % 16,
            decreases encoded_inputs.len() - i,
        {
            nibbles.push(self.lookup_low_nibble(encoded_inputs[i]));
            i += 1;
        }
        nibbles
    }

    pub fn lookup_high_nibble_batch(&self, encoded_inputs: &[u8]) -> (nibbles: Vec<u64>)
        ensures
            nibbles.len() == encoded_inputs.len(),
            forall|i: int|
                0 <= i < nibbles.len() ==> #[trigger] nibbles[i] == (self.result(
                    encoded_inputs[i],
                ) / 16) % 16,
    {
        let mut nibbles: Vec<u64> = Vec::with_capacity(encoded_inputs.len());
        let mut i: usize = 0;
        while i < encoded_inputs.len()
            invariant
                i <= encoded_inputs.len(),
                nibbles.len() == i,
                forall|j: int|
                    0 <= j < i ==> #[trigger] nibbles[j] == (self.result(encoded_inputs[j]) / 16)
                        % 16,
            decreases encoded_inputs.len() - i,
        {
            nibbles.push(self.lookup_high_nibble(encoded_inputs[i]));
            i += 1;
        }
        nibbles
    }

    pub fn get_normal_input(&self) -> (byte: u8)
        ensures
            byte == self.normal_input(),
    {
        self.normal_input
    }

    pub fn get_operation(&self) -> (operation: ArithmeticOp)
        ensures
            operation == self.operation(),
    {
        self.operation
    }

    pub fn get_low_nibble_subtable(&self) -> (table: &[u64])
        ensures
            table@ == self.low(),
    {
        self.low_nibble_data
    }

    pub fn get_high_nibble_subtable(&self) -> (table: &[u64])
        ensures
            table@ == self.high(),
    {
        self.high_nibble_data
    }
}

/// The tables of the operations that were added, at most one set for each
/// operation, in the order in which the operations first came.
pub struct ArithmeticLookupManager {
    tables: Vec<ArithmeticLookupTables>,
}

impl ArithmeticLookupManager {
    /// No operation is loaded twice.
    pub closed spec fn wf(&self) -> bool {
        forall|i: int, j: int|
            0 <= i < j < self.tables.len() ==> (#[trigger] self.tables[i]).operation() != (
            #[trigger] self.tables[j]).operation()
    }

    /// The operations whose tables are loaded, in the order in which they
    /// first came.
    pub closed spec fn loaded(&self) -> Seq<ArithmeticOp> {
        Seq::new(self.tables.len() as nat, |i: int| self.tables[i].operation())
    }

    pub fn new() -> (manager: Self)
        ensures
            manager.wf(),
            manager.loaded() == Seq::<ArithmeticOp>::empty(),
    {
        let manager = ArithmeticLookupManager { tables: Vec::new() };
        proof {
            assert(manager.loaded() =~= Seq::<ArithmeticOp>::empty());
        }
        manager
    }

    /// Where the tables of `operation` stand.
    fn position(&self, operation: ArithmeticOp) -> (place: Option<usize>)
        ensures
            match place {
                Some(i) => i < self.tables.len() && self.tables[i as int].operation() == operation,
                None => !self.loaded().contains(operation),
            },
    {
        let mut i: usize = 0;
        while i < self.tables.len()
            invariant
                i <= self.tables.len(),
                forall|j: int| 0 <= j < i ==> (#[trigger] self.tables[j]).operation() != operation,
            decreases self.tables.len() - i,
        {
            if self.tables[i].get_operation() == operation {
                return Some(i);
            }
            i += 1;
        }
        None
    }

    /// Makes the tables of an operation and loads them, in place of those
    /// that were loaded for it before.
    pub fn add_operation(&mut self, operation: ArithmeticOp)
        requires
            old(self).wf(),
        ensures
            final(self).wf(),
            final(self).loaded() == (if old(self).loaded().contains(operation) {
                old(self).loaded()
            } else {
                old(self).loaded().push(operation)
            }),
    {
        let tables = ArithmeticLookupTables::new(operation);
        match self.position(operation) {
            Some(i) => {
                let ghost before = self.tables@;
                self.tables.set(i, tables);
                proof {
                    assert(self.loaded() =~= old(self).loaded());
                    assert(old(self).loaded()[i as int] == operation);
                    assert forall|a: int, b: int|
                        0 <= a < b < self.tables.len() implies (#[trigger] self.tables[a]).operation()
                        != (#[trigger] self.tables[b]).operation() by {
                        assert(self.tables[a].operation() == old(self).tables[a].operation());
                        assert(self.tables[b].operation() == old(self).tables[b].operation());
                    }
                }
            },
            None => {
                self.tables.push(tables);
                proof {
                    assert(self.loaded() =~= old(self).loaded().push(operation));
                    assert forall|a: int, b: int|
                        0 <= a < b < self.tables.len() implies (#[trigger] self.tables[a]).operation()
                        != (#[trigger] self.tables[b]).operation() by {
                        if b == self.tables.len() - 1 {
                            assert(old(self).loaded()[a] == self.tables[a].operation());
                        }
                    }
                }
            },
        }
    }

    /// Loads the operations in order.
    pub fn add_operations(&mut self, operations: &[ArithmeticOp])
        requires
            old(self).wf(),
        ensures
            final(self).wf(),
            forall|op: ArithmeticOp|
                final(self).loaded().contains(op) <==> old(self).loaded().contains(op)
                    || operations@.contains(op),
    {
        let mut i: usize = 0;
        while i < operations.len()
            invariant
                i <= operations.len(),
                self.wf(),
                forall|op: ArithmeticOp|
                    self.loaded().contains(op) <==> old(self).loaded().contains(op)
                        || operations@.subrange(0, i as int).contains(op),
            decreases operations.len() - i,
        {
            let ghost before = self.loaded();
            let ghost done = operations@.subrange(0, i as int);
            let ghost x = operations[i as int];
            self.add_operation(operations[i]);
            i += 1;
            proof {
                assert(operations@.subrange(0, i as int) =~= done.push(x));
                assert forall|op: ArithmeticOp|
                    self.loaded().contains(op) <==> old(self).loaded().contains(op)
                        || operations@.subrange(0, i as int).contains(op) by {
                    lemma_push_contains(done, x, op);
                    lemma_push_contains(before, x, op);
                    assert(before.contains(op) <==> old(self).loaded().contains(op)
                        || done.contains(op));
                }
            }
        }
        proof {
            assert(operations@.subrange(0, operations.len() as int) =~= operations@);
        }
    }

    /// The tables of an operation, where they are loaded.
    pub fn get_table(&self, operation: ArithmeticOp) -> (table: Option<&ArithmeticLookupTables>)
        ensures
            table.is_some() == self.loaded().contains(operation),
            table matches Some(t) ==> t.operation() == operation,
    {
        match self.position(operation) {
            Some(i) => {
                proof {
                    assert(self.loaded()[i as int] == operation);
                }
                Some(&self.tables[i])
            },
            None => None,
        }
    }

    /// The part of the tables of an operation that belongs to one plain
    /// byte, where the tables are loaded.
    pub fn get_subtable(&self, operation: ArithmeticOp, normal_input: u8) -> (subtable: Option<
        ArithmeticSubTable<'_>,
    >)
        ensures
            subtable.is_some() == self.loaded().contains(operation),
            subtable matches Some(s) ==> s.operation() == operation && s.normal_input()
                == normal_input,
    {
        match self.get_table(operation) {
            Some(table) => Some(table.get_subtable(normal_input)),
            None => None,
        }
    }

    /// The nibbles of the result of an operation, where its tables are
    /// loaded.
    pub fn lookup(&self, operation: ArithmeticOp, normal_input: u8, encoded_input: u8) -> (nibbles:
        Option<(u64, u64)>)
        ensures
            nibbles.is_some() == self.loaded().contains(operation),
            nibbles matches Some(n) ==> {
                &&& n.0 == table_result(
                    operation,
                    (normal_input as nat * 256 + encoded_input as nat) as nat,
                ) % 16
                &&& n.1 == (table_result(
                    operation,
                    (normal_input as nat * 256 + encoded_input as nat) as nat,
                ) / 16) % 16
            },
    {
        match self.get_table(operation) {
            Some(table) => Some(table.lookup(normal_input, encoded_input)),
            None => None,
        }
    }

    /// The loaded operations, in the order in which they first came.
    pub fn get_loaded_operations(&self) -> (operations: Vec<ArithmeticOp>)
        ensures
            operations@ == self.loaded(),
    {
        let mut operations: Vec<ArithmeticOp> = Vec::with_capacity(self.tables.len());
        let mut i: usize = 0;
        while i < self.tables.len()
            invariant
                i <= self.tables.len(),
                operations.len() == i,
                forall|j: int| 0 <= j < i ==> #[trigger] operations[j] == self.tables[j].operation(),
            decreases self.tables.len() - i,
        {
            operations.push(self.tables[i].get_operation());
            i += 1;
        }
        proof {
            assert(operations@ =~= self.loaded());
        }
        operations
    }

    /// The bytes that all loaded tables take up: as much for every
    /// operation.
    pub fn total_memory_usage(&self) -> (bytes: usize)
        requires
            self.wf(),
        ensures
            bytes == self.loaded().len() * (1048576),
    {
        let mut bytes: usize = 0;
        let mut i: usize = 0;
        proof {
            lemma_at_most_four(self.loaded());
        }
        while i < self.tables.len()
            invariant
                i <= self.tables.len() <= 4,
                bytes == i * (1048576),
            decreases self.tables.len() - i,
        {
            bytes = bytes + self.tables[i].memory_usage();
            i += 1;
        }
        bytes
    }

    /// Unloads the tables of an operation; tells whether there were any.
    pub fn remove_operation(&mut self, operation: ArithmeticOp) -> (removed: bool)
        requires
            old(self).wf(),
        ensures
            final(self).wf(),
            removed == old(self).loaded().contains(operation),
            !final(self).loaded().contains(operation),
            forall|op: ArithmeticOp|
                op != operation ==> (final(self).loaded().contains(op) <==> old(
                    self,
                ).loaded().contains(op)),
    {
        match self.position(operation) {
            Some(i) => {
                self.tables.remove(i);
                proof {
                    let before = old(self).loaded();
                    let after = self.loaded();
                    assert(before[i as int] == operation);
                    assert(after =~= before.remove(i as int));
                    assert forall|a: int, b: int|
                        0 <= a < b < self.tables.len() implies (#[trigger] self.tables[a]).operation()
                        != (#[trigger] self.tables[b]).operation() by {
                        let x = if a < i {
                            a
                        } else {
                            a + 1
                        };
                        let y = if b < i {
                            b
                        } else {
                            b + 1
                        };
                        assert(self.tables[a] == old(self).tables[x]);
                        assert(self.tables[b] == old(self).tables[y]);
                    }
                    assert forall|k: int| 0 <= k < after.len() implies after[k] != operation by {
                        let x = if k < i {
                            k
                        } else {
                            k + 1
                        };
                        assert(after[k] == old(self).tables[x].operation());
                    }
                    assert forall|op: ArithmeticOp| op != operation implies (after.contains(op)
                        <==> before.contains(op)) by {
                        if after.contains(op) {
                            let k = choose|k: int| 0 <= k < after.len() && after[k] == op;
                            let x = if k < i {
                                k
                            } else {
                                k + 1
                            };
                            assert(before[x] == op);
                        }
                        if before.contains(op) {
                            let k = choose|k: int| 0 <= k < before.len() && before[k] == op;
                            let x = if k < i {
                                k
                            } else {
                                k - 1
                            };
                            assert(after[x] == op);
                        }
                    }
                }
                true
            },
            None => false,
        }
    }

    /// Unloads all tables.
    pub fn clear(&mut self)
        ensures
            final(self).wf(),
            final(self).loaded() == Seq::<ArithmeticOp>::empty(),
    {
        self.tables.clear();
        proof {
            assert(self.loaded() =~= Seq::<ArithmeticOp>::empty());
        }
    }
}

/// What a sequence holds after one more entry.
proof fn lemma_push_contains(s: Seq<ArithmeticOp>, x: ArithmeticOp, op: ArithmeticOp)
    ensures
        s.push(x).contains(op) <==> s.contains(op) || op == x,
{
    if s.contains(op) {
        let k = choose|k: int| 0 <= k < s.len() && s[k] == op;
        assert(s.push(x)[k] == op);
    }
    if op == x {
        assert(s.push(x)[s.len() as int] == op);
    }
    if s.push(x).contains(op) {
        let k = choose|k: int| 0 <= k < s.push(x).len() && s.push(x)[k] == op;
        if k < s.len() {
            assert(s[k] == op);
        }
    }
}

/// There are four operations, so no more than four can be loaded at once.
proof fn lemma_at_most_four(loaded: Seq<ArithmeticOp>)
    requires
        loaded.no_duplicates(),
    ensures
        loaded.len() <= 4,
{
    if loaded.len() > 4 {
        let rank = |op: ArithmeticOp|
            match op {
                ArithmeticOp::Add => 0int,
                ArithmeticOp::Sub => 1int,
                ArithmeticOp::Mul => 2int,
                ArithmeticOp::Div => 3int,
            };
        let r0 = rank(loaded[0]);
        let r1 = rank(loaded[1]);
        let r2 = rank(loaded[2]);
        let r3 = rank(loaded[3]);
        let r4 = rank(loaded[4]);
        assert(loaded[0] != loaded[1] && loaded[0] != loaded[2] && loaded[0] != loaded[3]
            && loaded[0] != loaded[4]);
        assert(loaded[1] != loaded[2] && loaded[1] != loaded[3] && loaded[1] != loaded[4]);
        assert(loaded[2] != loaded[3] && loaded[2] != loaded[4]);
        assert(loaded[3] != loaded[4]);
    }
}

impl Default for ArithmeticLookupManager {
    fn default() -> (manager: Self)
        ensures
            manager.wf(),
            manager.loaded() == Seq::<ArithmeticOp>::empty(),
    {
        Self::new()
    }
}

} // verus!
