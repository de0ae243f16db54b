use hypercube::controls::{key_command, view_size, Axis, Command};

#[test]
fn keys_map_to_commands() {
    assert_eq!(key_command('r'), Some(Command::ToggleRotate));
    assert_eq!(key_command('w'), Some(Command::Translate { axis: Axis::Z, forward: true }));
    assert_eq!(key_command('s'), Some(Command::Translate { axis: Axis::Z, forward: false }));
    assert_eq!(key_command('d'), Some(Command::Translate { axis: Axis::X, forward: true }));
    assert_eq!(key_command('a'), Some(Command::Translate { axis: Axis::X, forward: false }));
    assert_eq!(key_command('q'), Some(Command::Translate { axis: Axis::Y, forward: true }));
    assert_eq!(key_command('e'), Some(Command::Translate { axis: Axis::Y, forward: false }));
    assert_eq!(key_command('p'), Some(Command::Translate { axis: Axis::W, forward: true }));
    assert_eq!(key_command('l'), Some(Command::Translate { axis: Axis::W, forward: false }));
    assert_eq!(key_command('x'), None);
}

#[test]
fn view_size_fits_the_terminal() {
    assert_eq!(view_size(100, 40), 76);
    assert_eq!(view_size(50, 40), 50);
    assert_eq!(view_size(10, 2), 0);
    assert_eq!(view_size(65535, 40000), 14460);
}
