use yash::expansion::Field;
use yash::source::Location;
use yash::stack::{Env, Frame, Stack};

fn builtin(name: &str) -> Frame {
    Frame::Builtin {
        name: Field {
            value: name.to_string(),
            origin: Location::dummy(),
        },
    }
}

#[test]
fn stack_push_and_pop() {
    let mut stack = Stack::default();
    stack.push(builtin("a"));
    stack.push(builtin("b"));
    assert_eq!(stack.frames().len(), 2);
    assert_eq!(stack.pop(), builtin("b"));
    assert_eq!(stack.frames(), &vec![builtin("a")]);
}

#[test]
fn env_push_and_pop_frame() {
    let mut env = Env::default();
    env.push_frame(builtin("x"));
    assert_eq!(env.stack.frames(), &vec![builtin("x")]);
    assert_eq!(env.pop_frame(), builtin("x"));
    assert!(env.stack.frames().is_empty());
    let stack = Stack::from_frames(vec![builtin("y")]);
    assert_eq!(stack.frames().len(), 1);
}
