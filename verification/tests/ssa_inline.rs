//! Folding stores into table constructors.

use rustc_hash::{FxHashMap, FxHashSet};
use medal::ast::{
    Assign, Block, Call, Closure, Empty, Global, Index, LValue, Literal, Local, Locals, RValue,
    RcLocal, SetList, Statement, Table, Upvalue,
};

trait Parts {
    fn as_empty(&self) -> Option<&Empty>;
    fn as_set_list(&self) -> Option<&SetList>;
}

impl Parts for Statement {
    fn as_empty(&self) -> Option<&Empty> {
        match self {
            Statement::Empty(part) => Some(part),
            _ => None,
        }
    }

    fn as_set_list(&self) -> Option<&SetList> {
        match self {
            Statement::SetList(part) => Some(part),
            _ => None,
        }
    }
}

fn local(locals: &mut Locals, name: &str) -> RcLocal {
    RcLocal::new(locals, Local::new(Some(name.to_owned())))
}

trait Fields {
    fn as_table(&self) -> Option<&Table>;
}

impl Fields for RValue {
    fn as_table(&self) -> Option<&Table> {
        match self {
            RValue::Table(table) => Some(table),
            _ => None,
        }
    }
}

fn fold_table_fields(block: &mut Block, observable: &FxHashSet<u64>) -> usize {
    let (left, count) = medal::cfg::ssa::table_folding::fold_table_fields(
        std::mem::take(&mut block.0),
        observable,
    );
    block.0 = left;
    count
}

fn fold_set_lists(block: &mut Block, usages: &mut FxHashMap<u64, usize>) -> usize {
    let (left, count) =
        medal::cfg::ssa::table_folding::fold_set_lists(std::mem::take(&mut block.0), usages);
    block.0 = left;
    count
}

fn closure(upvalues: Vec<Upvalue>) -> RValue {
    Closure {
        function: Default::default(),
        upvalues,
    }
    .into()
}

fn field_assignment(object: &RcLocal, key: RValue, value: RValue) -> Statement {
    Assign::new(
        vec![LValue::Index(Index::new(object.clone().into(), key))],
        vec![value],
    )
    .into()
}

#[test]
fn folds_adjacent_callback_field_without_target_capture() {
    let mut locals = Locals::new();
    let object = local(&mut locals, "callbacks");
    let mut block = Block(vec![
        Assign::new(vec![object.clone().into()], vec![Table::default().into()]).into(),
        field_assignment(
            &object,
            Literal::String(b"ready".to_vec()).into(),
            closure(Vec::new()),
        ),
    ]);

    assert_eq!(fold_table_fields(&mut block, &FxHashSet::default()), 1);
    assert_eq!(block.len(), 1);
    assert_eq!(
        block.0[0].as_assign().unwrap().right[0]
            .as_table()
            .unwrap()
            .0
            .len(),
        1
    );
}

#[test]
fn keeps_callback_field_that_captures_target_table() {
    let mut locals = Locals::new();
    let object = local(&mut locals, "callbacks");
    let mut block = Block(vec![
        Assign::new(vec![object.clone().into()], vec![Table::default().into()]).into(),
        field_assignment(
            &object,
            Literal::String(b"ready".to_vec()).into(),
            closure(vec![Upvalue::Ref(object.clone())]),
        ),
    ]);

    assert_eq!(fold_table_fields(&mut block, &FxHashSet::default()), 0);
    assert_eq!(block.len(), 2);
}

#[test]
fn keeps_field_after_open_table_call_tail() {
    let mut locals = Locals::new();
    let object = local(&mut locals, "values");
    let call = Call::new(RValue::from(Global::from("produce")), Vec::new());
    let mut block = Block(vec![
        Assign::new(
            vec![object.clone().into()],
            vec![Table(vec![(None, call.into())]).into()],
        )
        .into(),
        field_assignment(
            &object,
            Literal::String(b"status".to_vec()).into(),
            Literal::Boolean(true).into(),
        ),
    ]);

    assert_eq!(fold_table_fields(&mut block, &FxHashSet::default()), 0);
    assert_eq!(block.len(), 2);
}

#[test]
fn keeps_effectful_field_value_after_table_assignment() {
    let mut locals = Locals::new();
    let object = local(&mut locals, "state");
    let observe = Call::new(RValue::from(Global::from("observe")), Vec::new());
    let observable = FxHashSet::from_iter([object.id]);
    let mut block = Block(vec![
        Assign::new(vec![object.clone().into()], vec![Table::default().into()]).into(),
        field_assignment(
            &object,
            Literal::String(b"value".to_vec()).into(),
            observe.into(),
        ),
    ]);

    assert_eq!(fold_table_fields(&mut block, &observable), 0);
    assert_eq!(block.len(), 2);
}

#[test]
fn folds_effectful_field_value_into_fresh_local_table() {
    let mut locals = Locals::new();
    let object = local(&mut locals, "state");
    let observe = Call::new(RValue::from(Global::from("observe")), Vec::new());
    let mut declaration =
        Assign::new(vec![object.clone().into()], vec![Table::default().into()]);
    declaration.prefix = true;
    let mut block = Block(vec![
        declaration.into(),
        field_assignment(
            &object,
            Literal::String(b"value".to_vec()).into(),
            observe.into(),
        ),
    ]);

    assert_eq!(fold_table_fields(&mut block, &FxHashSet::default()), 1);
    assert_eq!(block.len(), 1);
}

#[test]
fn folds_set_list_through_adjacent_table_alias() {
    let mut locals = Locals::new();
    let table = local(&mut locals, "table");
    let alias = local(&mut locals, "alias");
    let mut block = Block(vec![
        Assign::new(vec![table.clone().into()], vec![Table::default().into()]).into(),
        Assign::new(vec![alias.clone().into()], vec![table.into()]).into(),
        SetList::new(
            alias.clone(),
            1,
            vec![Literal::String(b"value".to_vec()).into()],
            None,
        )
        .into(),
    ]);
    let mut local_usages = FxHashMap::from_iter([(alias.id, 1)]);

    assert_eq!(fold_set_lists(&mut block, &mut local_usages), 1);
    let fields = &block.0[0].as_assign().unwrap().right[0].as_table().unwrap().0;
    assert_eq!(fields.len(), 1);
    assert!(fields[0].0.is_none());
    assert!(fields[0].1.equals(&Literal::String(b"value".to_vec()).into()));
    assert!(block.0[2].as_empty().is_some());
    assert_eq!(local_usages[&alias.id], 0);
}

#[test]
fn moves_unobserved_table_construction_past_value_preparation() {
    let mut locals = Locals::new();
    let table = local(&mut locals, "table");
    let value = local(&mut locals, "value");
    let mut block = Block(vec![
        Assign::new(vec![table.clone().into()], vec![Table::default().into()]).into(),
        Assign::new(
            vec![value.clone().into()],
            vec![Literal::String(b"value".to_vec()).into()],
        )
        .into(),
        SetList::new(table.clone(), 1, vec![value.clone().into()], None).into(),
    ]);
    let mut local_usages = FxHashMap::from_iter([(table.id, 1), (value.id, 1)]);

    assert_eq!(fold_set_lists(&mut block, &mut local_usages), 1);
    assert!(block.0[0].as_empty().is_some());
    let moved = block.0[2].as_assign().unwrap();
    assert_eq!(moved.left.len(), 1);
    assert_eq!(moved.left[0].as_local(), Some(table));
    assert_eq!(moved.right[0].as_table().unwrap().0.len(), 1);
}

#[test]
fn keeps_constructor_local_read_before_intervening_call() {
    let mut locals = Locals::new();
    let table = local(&mut locals, "table");
    let source = local(&mut locals, "source");
    let mut block = Block(vec![
        Assign::new(
            vec![table.clone().into()],
            vec![
                Table(vec![(
                    Some(Literal::String(b"tag".to_vec()).into()),
                    source.clone().into(),
                )])
                .into(),
            ],
        )
        .into(),
        Call::new(Global::from("mutate").into(), Vec::new()).into(),
        SetList::new(
            table.clone(),
            1,
            vec![Literal::String(b"value".to_vec()).into()],
            None,
        )
        .into(),
    ]);
    let mut local_usages = FxHashMap::from_iter([(table.id, 1), (source.id, 1)]);

    assert_eq!(fold_set_lists(&mut block, &mut local_usages), 0);
    assert!(block.0[2].as_set_list().is_some());
}
