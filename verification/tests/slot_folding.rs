//! Folding table slots into their reads.

use medal::ast::{
    Assign, Binary, BinaryOperation, Block, Call, Global, If, Index, LValue, Literal, Local,
    Locals, Number, RValue, RcLocal, Statement, Table,
};

fn number(value: f64) -> Number {
    if value.fract() == 0.0 {
        Number::Integer(value as i128)
    } else {
        let mut buffer = ryu::Buffer::new();
        Number::Decimal(buffer.format_finite(value).to_owned())
    }
}

fn local(locals: &mut Locals, name: Option<&str>) -> RcLocal {
    RcLocal::new(locals, Local::new(name.map(str::to_owned)))
}

fn fold_table_slots(block: &mut Block, protected: &[RcLocal]) -> usize {
    let (left, count) =
        medal::ast::slot_folding::fold_table_slots(std::mem::take(block), &protected.to_vec());
    *block = left;
    count
}

fn slot(table: &RcLocal, key: f64) -> LValue {
    LValue::Index(Index::new(
        table.clone().into(),
        Literal::Number(number(key)).into(),
    ))
}

fn slot_read(table: &RcLocal, key: f64) -> RValue {
    RValue::Index(Index::new(
        table.clone().into(),
        Literal::Number(number(key)).into(),
    ))
}

fn declaration(table: &RcLocal) -> Statement {
    let mut assign = Assign::new(vec![table.clone().into()], vec![Table::default().into()]);
    assign.prefix = true;
    assign.into()
}

/// local registers = {}
/// registers[1] = source
/// registers[2] = registers[1]
fn fixture_simple_chain(locals: &mut Locals) -> (RcLocal, RcLocal, Block) {
    let registers = local(locals, Some("registers"));
    let source = local(locals, Some("source"));
    let block = Block(vec![
        declaration(&registers),
        Assign::new(vec![slot(&registers, 1.0)], vec![source.clone().into()]).into(),
        Assign::new(
            vec![slot(&registers, 2.0)],
            vec![slot_read(&registers, 1.0)],
        )
        .into(),
    ]);
    (registers, source, block)
}

fn fixture_chain_with_intervening_call(locals: &mut Locals) -> Block {
    let (_, _, mut block) = fixture_simple_chain(locals);
    block.0.insert(
        2,
        Call::new(local(locals, Some("observe")).into(), Vec::new()).into(),
    );
    block
}

fn fixture_chain_on_parameter_table(locals: &mut Locals) -> Block {
    let (_, _, mut block) = fixture_simple_chain(locals);
    block.0.remove(0);
    block
}

fn fixture_chain_with_computed_key_write(locals: &mut Locals) -> Block {
    let (registers, source, mut block) = fixture_simple_chain(locals);
    let key = local(locals, Some("index"));
    block.0.push(
        Assign::new(
            vec![LValue::Index(Index::new(
                registers.into(),
                key.into(),
            ))],
            vec![source.into()],
        )
        .into(),
    );
    block
}

fn fixture_chain_with_setmetatable(locals: &mut Locals) -> Block {
    let (registers, _, mut block) = fixture_simple_chain(locals);
    block.0.insert(
        1,
        Call::new(
            Global::new(b"setmetatable".to_vec()).into(),
            vec![registers.into(), Table::default().into()],
        )
        .into(),
    );
    block
}

fn fixture_chain_with_intervening_index_write(locals: &mut Locals) -> Block {
    let (_, source, mut block) = fixture_simple_chain(locals);
    let alias = local(locals, Some("alias"));
    block.0.insert(
        2,
        Assign::new(vec![slot(&alias, 1.0)], vec![source.into()]).into(),
    );
    block
}

fn fixture_chain_with_two_reads(locals: &mut Locals) -> Block {
    let (registers, _, mut block) = fixture_simple_chain(locals);
    let sink = local(locals, Some("sink"));
    block
        .0
        .push(Assign::new(vec![sink.into()], vec![slot_read(&registers, 1.0)]).into());
    block
}

fn fixture_chain_across_an_if(locals: &mut Locals) -> Block {
    let (_, _, mut block) = fixture_simple_chain(locals);
    let guarded = block.0.pop().unwrap();
    block.0.push(
        If::new(
            local(locals, Some("flag")).into(),
            Block(vec![guarded]),
            Block::default(),
        )
        .into(),
    );
    block
}

/// The positive case: the write disappears and its value lands in the read.
#[test]
fn folds_a_constant_slot_into_its_only_read() {
    let mut locals = Locals::new();
    let (_, source, mut block) = fixture_simple_chain(&mut locals);

    assert_eq!(fold_table_slots(&mut block, &[]), 1);
    assert_eq!(block.0.len(), 2);
    let merged = block.0[1].as_assign().unwrap();
    assert_eq!(merged.right.len(), 1);
    assert!(merged.right[0].equals(&RValue::Local(source)));
}

/// Precondition 4: a call between the write and the read could run a
/// closure that observes the slot.
#[test]
fn keeps_the_write_when_a_call_intervenes() {
    let mut locals = Locals::new();
    let mut block = fixture_chain_with_intervening_call(&mut locals);
    assert_eq!(fold_table_slots(&mut block, &[]), 0);
}

/// Precondition 2: without a table-literal binding the provenance — and
/// therefore the metatable — is unknown.
#[test]
fn keeps_the_write_when_the_table_is_a_parameter() {
    let mut locals = Locals::new();
    let mut block = fixture_chain_on_parameter_table(&mut locals);
    assert_eq!(fold_table_slots(&mut block, &[]), 0);
}

/// Precondition 5: a computed key anywhere could collide with a constant
/// one. The write here is after the read, so only the whole-function
/// check can reject it.
#[test]
fn keeps_the_write_when_a_computed_key_is_written_anywhere() {
    let mut locals = Locals::new();
    let mut block = fixture_chain_with_computed_key_write(&mut locals);
    assert_eq!(fold_table_slots(&mut block, &[]), 0);
}

/// Precondition 6: `__index`/`__newindex` could intercept the slots.
#[test]
fn keeps_the_write_when_setmetatable_is_applied_to_the_table() {
    let mut locals = Locals::new();
    let mut block = fixture_chain_with_setmetatable(&mut locals);
    assert_eq!(fold_table_slots(&mut block, &[]), 0);
}

/// Precondition 4: a write through an index may target the same table
/// under another name.
#[test]
fn keeps_the_write_when_an_index_assignment_intervenes() {
    let mut locals = Locals::new();
    let mut block = fixture_chain_with_intervening_index_write(&mut locals);
    assert_eq!(fold_table_slots(&mut block, &[]), 0);
}

/// Precondition 7: a second read still needs the slot to hold the value.
#[test]
fn keeps_the_write_when_the_slot_is_read_twice() {
    let mut locals = Locals::new();
    let mut block = fixture_chain_with_two_reads(&mut locals);
    assert_eq!(fold_table_slots(&mut block, &[]), 0);
}

/// Precondition 3: the read is behind a branch boundary.
#[test]
fn keeps_the_write_when_a_structured_statement_intervenes() {
    let mut locals = Locals::new();
    let mut block = fixture_chain_across_an_if(&mut locals);
    assert_eq!(fold_table_slots(&mut block, &[]), 0);
}

/// Precondition 3, isolated: the read sits in a branch condition, which
/// `blocks_window` alone would let through because the condition is
/// evaluated before the branch is taken.
#[test]
fn keeps_the_write_when_the_read_is_a_branch_condition() {
    let mut locals = Locals::new();
    let registers = local(&mut locals, Some("registers"));
    let source = local(&mut locals, Some("source"));
    let mut block = Block(vec![
        declaration(&registers),
        Assign::new(vec![slot(&registers, 1.0)], vec![source.into()]).into(),
        If::new(slot_read(&registers, 1.0), Block::default(), Block::default()).into(),
    ]);

    assert_eq!(fold_table_slots(&mut block, &[]), 0);
}

/// Precondition 2, isolated: the table is bound once, but by a call, so
/// its metatable is unknown. The `fixture_chain_on_parameter_table` case
/// has no binding at all and so never reaches this test.
#[test]
fn keeps_the_write_when_the_table_comes_from_a_call() {
    let mut locals = Locals::new();
    let registers = local(&mut locals, Some("registers"));
    let source = local(&mut locals, Some("source"));
    let produce = Call::new(Global::new(b"produce".to_vec()).into(), Vec::new());
    let mut block = Block(vec![
        Assign::new(vec![registers.clone().into()], vec![produce.into()]).into(),
        Assign::new(vec![slot(&registers, 1.0)], vec![source.into()]).into(),
        Assign::new(
            vec![slot(&registers, 2.0)],
            vec![slot_read(&registers, 1.0)],
        )
        .into(),
    ]);

    assert_eq!(fold_table_slots(&mut block, &[]), 0);
}

/// Precondition 7: the write is not dead just because its read was
/// consumed. Here the table is handed to a call afterwards, which can
/// read every slot, so removing the write would show that call a `nil`.
#[test]
fn keeps_the_write_when_the_table_escapes_after_the_read() {
    let mut locals = Locals::new();
    let registers = local(&mut locals, Some("registers"));
    let source = local(&mut locals, Some("source"));
    let observe = Call::new(
        Global::new(b"observe".to_vec()).into(),
        vec![registers.clone().into()],
    );
    let mut block = Block(vec![
        declaration(&registers),
        Assign::new(vec![slot(&registers, 1.0)], vec![source.into()]).into(),
        Assign::new(
            vec![slot(&registers, 2.0)],
            vec![slot_read(&registers, 1.0)],
        )
        .into(),
        observe.into(),
    ]);

    assert_eq!(fold_table_slots(&mut block, &[]), 0);
}

/// Precondition 7's other arm: the read overwrites the slot it reads, so
/// the folded value dies in the same statement that consumed it. The slot
/// is read twice more afterwards, so nothing but that redefinition can
/// justify the fold.
#[test]
fn folds_into_a_read_that_overwrites_the_same_slot() {
    let mut locals = Locals::new();
    let registers = local(&mut locals, Some("registers"));
    let source = local(&mut locals, Some("source"));
    let sink = local(&mut locals, Some("sink"));
    let increment = Binary::new(
        slot_read(&registers, 2.0),
        Literal::Number(number(1.0)).into(),
        BinaryOperation::Add,
    );
    let doubled = Binary::new(
        slot_read(&registers, 2.0),
        slot_read(&registers, 2.0),
        BinaryOperation::Add,
    );
    let mut block = Block(vec![
        declaration(&registers),
        Assign::new(vec![slot(&registers, 2.0)], vec![source.clone().into()]).into(),
        Assign::new(vec![slot(&registers, 2.0)], vec![increment.into()]).into(),
        Assign::new(vec![sink.into()], vec![doubled.into()]).into(),
    ]);

    assert_eq!(fold_table_slots(&mut block, &[]), 1);
    assert_eq!(block.0.len(), 3);
    let merged = block.0[1].as_assign().unwrap();
    let RValue::Binary(binary) = &merged.right[0] else {
        panic!("expected the folded value in a binary operation");
    };
    assert!(binary.left.equals(&RValue::Local(source)));
}
