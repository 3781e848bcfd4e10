use ecs_core::dispatcher::Dispatcher;
use ecs_core::state::Effect;
use ecs_core::state::Hook;
use ecs_core::state::State;
use ecs_core::state::StateMachine;
use ecs_core::state::Target;
use ecs_core::state::Trans;
use ecs_core::state::UpdateStatus;

fn state_of(names: &[&'static str]) -> State<&'static str> {
    let mut s = State::new();
    for n in names {
        s = s.with(*n);
    }
    s
}

fn names(s: &mut State<&'static str>) -> Vec<&'static str> {
    s.systems_mut().clone()
}

#[test]
fn state_machine_transitions() {
    let s0 = state_of(&["SA", "SB"]);
    let mut machine = StateMachine::new(s0);
    assert_eq!(machine.depth(), 1);
    assert_eq!(names(machine.state_mut(0)), vec!["SA", "SB"]);

    // SA returns no transition, SB swaps to S1
    let verdicts = vec![Trans::Stay, Trans::Swap(state_of(&["SC"]))];
    let verdict = machine.state_mut(0).on_update(verdicts);
    assert!(matches!(verdict, Trans::Swap(_)));
    let (status, effect) = machine.update(verdict);
    assert!(status == UpdateStatus::Continue);
    match effect {
        Effect::Replaced(mut left) => assert_eq!(names(&mut left), vec!["SA", "SB"]),
        _ => panic!("the swap did not hand the old state back"),
    }
    assert_eq!(machine.depth(), 1);
    assert_eq!(names(machine.state_mut(0)), vec!["SC"]);

    // SC pops
    let verdict = machine.state_mut(0).on_update(vec![Trans::Pop]);
    let (status, effect) = machine.update(verdict);
    assert!(status == UpdateStatus::Exit);
    match effect {
        Effect::Drained(mut left) => assert_eq!(names(&mut left), vec!["SC"]),
        _ => panic!("the pop did not drain the stack"),
    }
    assert_eq!(machine.depth(), 0);

    // an empty machine stays at its end
    let (status, effect) = machine.update(Trans::Stay);
    assert!(status == UpdateStatus::Exit);
    assert!(matches!(effect, Effect::Nothing));
    let (status, _) = machine.update(Trans::Push(state_of(&["late"])));
    assert!(status == UpdateStatus::Exit);
    assert_eq!(machine.depth(), 0);
}

#[test]
fn push_and_pop_are_last_in_first_out() {
    let mut machine = StateMachine::new(state_of(&["a"]));
    let (status, effect) = machine.update(Trans::Stay);
    assert!(status == UpdateStatus::Continue);
    assert!(matches!(effect, Effect::Nothing));
    assert_eq!(machine.depth(), 1);

    let (status, effect) = machine.update(Trans::Push(state_of(&["b"])));
    assert!(status == UpdateStatus::Continue);
    assert!(matches!(effect, Effect::Started));
    assert_eq!(machine.depth(), 2);
    assert_eq!(names(machine.state_mut(0)), vec!["b"]);
    assert_eq!(names(machine.state_mut(1)), vec!["a"]);

    let (status, effect) = machine.update(Trans::Pop);
    assert!(status == UpdateStatus::Continue);
    match effect {
        Effect::Resume(mut left) => assert_eq!(names(&mut left), vec!["b"]),
        _ => panic!("the pop did not resume the state below"),
    }
    assert_eq!(names(machine.state_mut(0)), vec!["a"]);

    let (status, effect) = machine.update(Trans::Pop);
    assert!(status == UpdateStatus::Exit);
    assert!(matches!(effect, Effect::Drained(_)));
}

#[test]
fn reduction_takes_the_first_verdict_that_moves_the_stack() {
    let d: Dispatcher<u8> = Dispatcher::new();
    assert!(matches!(d.on_update(vec![]), Trans::Stay));
    assert!(matches!(d.on_update(vec![Trans::Stay, Trans::Stay]), Trans::Stay));
    assert!(matches!(d.on_update(vec![Trans::Stay, Trans::Pop, Trans::Stay]), Trans::Pop));
    let mut marked: State<u8> = State::new();
    marked = marked.with(42);
    let verdicts = vec![Trans::Stay, Trans::Push(marked), Trans::Pop, Trans::Swap(State::new())];
    let r = d.on_update(verdicts);
    match r {
        Trans::Push(mut s) => assert_eq!(s.systems_mut().clone(), vec![42]),
        _ => panic!("the first verdict did not win"),
    }
    assert!(matches!(d.on_update(vec![Trans::Pop, Trans::Push(State::new())]), Trans::Pop));
}

#[test]
fn dispatcher_keeps_systems_in_the_order_added() {
    let mut d: Dispatcher<u8> = Dispatcher::new();
    d.with(3).with(1).with(2);
    assert_eq!(d.systems_mut().clone(), vec![3, 1, 2]);
}

struct Sys {
    name: &'static str,
}

fn sys_state(names: &[&'static str]) -> State<Sys> {
    let mut s = State::new();
    for n in names {
        s = s.with(Sys { name: *n });
    }
    s
}

fn hook(
    state: &mut State<Sys>,
    what: &str,
    log: &mut Vec<String>,
    seeded: &mut Vec<u64>,
    next: &mut u64,
) {
    for sys in state.systems_mut().iter_mut() {
        log.push(format!("{}.{}", sys.name, what));
        if what == "start" && sys.name == "SA" {
            for _ in 0..3 {
                seeded.push(*next);
                *next += 1;
            }
        }
    }
}

fn update_all(state: &mut State<Sys>, log: &mut Vec<String>) -> Trans<Sys> {
    let mut verdicts = Vec::new();
    for sys in state.systems_mut().iter_mut() {
        log.push(format!("{}.update", sys.name));
        verdicts.push(match sys.name {
            "SB" => Trans::Swap(sys_state(&["SC"])),
            "SC" => Trans::Pop,
            _ => Trans::Stay,
        });
    }
    state.on_update(verdicts)
}

#[test]
fn state_machine_runs_to_completion() {
    let mut log: Vec<String> = Vec::new();
    let mut seeded: Vec<u64> = Vec::new();
    let mut next = 0u64;
    let mut machine = StateMachine::new(sys_state(&["SA", "SB"]));
    hook(machine.state_mut(0), "start", &mut log, &mut seeded, &mut next);
    let mut steps = 0;
    while machine.depth() > 0 {
        steps += 1;
        assert!(steps < 10);
        let verdict = update_all(machine.state_mut(0), &mut log);
        let (status, effect) = machine.update(verdict);
        let calls = effect.calls();
        let mut left = effect.into_left();
        for (which, target) in calls {
            let what = match which {
                Hook::Start => "start",
                Hook::Exit => "exit",
                Hook::Pause => "pause",
                Hook::Resume => "resume",
            };
            match target {
                Target::Left => hook(left.as_mut().unwrap(), what, &mut log, &mut seeded, &mut next),
                Target::Top => hook(machine.state_mut(0), what, &mut log, &mut seeded, &mut next),
                Target::Below => hook(machine.state_mut(1), what, &mut log, &mut seeded, &mut next),
            }
        }
        if status == UpdateStatus::Exit {
            break;
        }
    }
    assert_eq!(machine.depth(), 0);
    assert_eq!(steps, 2);
    assert_eq!(seeded, vec![0, 1, 2]);
    assert_eq!(
        log,
        vec![
            "SA.start",
            "SB.start",
            "SA.update",
            "SB.update",
            "SA.exit",
            "SB.exit",
            "SC.start",
            "SC.update",
            "SC.exit",
        ]
    );
    assert_eq!(log.iter().filter(|l| l.as_str() == "SA.start").count(), 1);
}

#[test]
fn each_effect_owes_its_calls_in_order() {
    let nothing: Effect<u8> = Effect::Nothing;
    assert_eq!(nothing.calls(), vec![]);
    assert!(nothing.into_left().is_none());
    let resume: Effect<u8> = Effect::Resume(State::new());
    assert_eq!(resume.calls(), vec![(Hook::Exit, Target::Left), (Hook::Resume, Target::Top)]);
    assert!(resume.into_left().is_some());
    let drained: Effect<u8> = Effect::Drained(State::new());
    assert_eq!(drained.calls(), vec![(Hook::Exit, Target::Left)]);
    let started: Effect<u8> = Effect::Started;
    assert_eq!(started.calls(), vec![(Hook::Pause, Target::Below), (Hook::Start, Target::Top)]);
    assert!(started.into_left().is_none());
    let replaced: Effect<u8> = Effect::Replaced(State::new().with(1));
    assert_eq!(replaced.calls(), vec![(Hook::Exit, Target::Left), (Hook::Start, Target::Top)]);
    let mut left = replaced.into_left().unwrap();
    assert_eq!(left.systems_mut().clone(), vec![1]);
}
