//! Declaring locals in the narrowest scope.

use std::collections::BTreeSet;

use medal::ast::local_declarations::LocalDeclarer;
use rustc_hash::FxHashSet;
use medal::ast::{Assign, Block, Literal, Local, Locals, RValue, RcLocal, Repeat, Return, Statement};

trait Parts {
    fn as_repeat(&self) -> Option<&Repeat>;
}

impl Parts for Statement {
    fn as_repeat(&self) -> Option<&Repeat> {
        match self {
            Statement::Repeat(part) => Some(part),
            _ => None,
        }
    }
}

fn local(locals: &mut Locals, name: &str) -> RcLocal {
    RcLocal::new(locals, Local::new(Some(name.to_owned())))
}

fn declarations(block: &Block) -> BTreeSet<RcLocal> {
    block
        .0
        .iter()
        .filter_map(Statement::as_assign)
        .filter(|assign| assign.prefix)
        .flat_map(|assign| assign.left.iter().filter_map(|value| value.as_local()))
        .collect()
}

#[test]
fn repeat_condition_uses_the_body_scope() {
    let mut locals = Locals::new();
    let incoming = local(&mut locals, "incoming");
    let snapshot = local(&mut locals, "snapshot");
    let repeat = Repeat::new(
        RValue::Local(snapshot.clone()),
        Block(vec![
            Assign::new(vec![snapshot.clone().into()], vec![incoming.clone().into()]).into(),
        ]),
    );
    let root = Block(vec![repeat.into()]);

    let root =
        LocalDeclarer::default().declare_locals(root, &FxHashSet::from_iter([incoming.id]));

    assert!(declarations(&root).is_empty());
    let body = &root.0[0].as_repeat().unwrap().block;
    assert!(body.0[0].as_assign().unwrap().prefix);
    assert_eq!(declarations(body), BTreeSet::from([snapshot]));
}

#[test]
fn loop_carried_value_used_after_repeat_is_declared_before_it() {
    let mut locals = Locals::new();
    let incoming = local(&mut locals, "incoming");
    let carried = local(&mut locals, "carried");
    let repeat = Repeat::new(
        RValue::Local(carried.clone()),
        Block(vec![
            Assign::new(
                vec![carried.clone().into()],
                vec![Literal::Boolean(true).into()],
            )
            .into(),
        ]),
    );
    let root = Block(vec![
        repeat.into(),
        Return::new(vec![carried.clone().into()]).into(),
    ]);

    let root =
        LocalDeclarer::default().declare_locals(root, &FxHashSet::from_iter([incoming.id]));

    assert_eq!(declarations(&root), BTreeSet::from([carried]));
    assert!(root.0[0].as_assign().unwrap().prefix);
    assert!(root.0[0].as_assign().unwrap().right.is_empty());
}
