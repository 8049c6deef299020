use cycler_core::field::{Field, FieldDeclaration};
use cycler_core::resolver::{dependencies_of, order_nodes, validate_entry_node, Node};
use cycler_core::scheduler::{CyclerSchedule, NodeAction, TickPhase};
use cycler_core::synchronizer::{PerceptionSynchronizer, Timestamped, Update};

fn field(name: &str, role: &str, arguments: &[&str]) -> Field {
    let declaration = FieldDeclaration {
        name: name.to_string(),
        role: role.to_string(),
        arguments: arguments.iter().map(|a| a.to_string()).collect(),
    };
    Field::try_from_declaration(&declaration).ok().expect("valid declaration")
}

/// Runs one tick, computing each node's output with `run` (`None` is a
/// failure), and returns the order in which nodes were run.
fn tick<T>(schedule: &mut CyclerSchedule<T>, mut run: impl FnMut(usize, &[Option<T>]) -> Option<T>) -> Vec<usize> {
    assert_eq!(schedule.next_action(), NodeAction::AwaitTrigger);
    schedule.start_tick();
    let mut ran = Vec::new();
    loop {
        match schedule.next_action() {
            NodeAction::Run { node } => {
                ran.push(node);
                let output = run(node, schedule.current());
                schedule.finish_node(output);
            }
            NodeAction::Skip { .. } => schedule.finish_node(None),
            NodeAction::Publish => {
                schedule.publish();
                return ran;
            }
            NodeAction::AwaitTrigger => panic!("tick ended without publishing"),
        }
    }
}

#[test]
fn failing_node_output_is_absent_and_dependents_skip() {
    // node 1 requires the output of node 0; node 2 requires nothing
    let mut schedule: CyclerSchedule<u32> = CyclerSchedule::new(vec![vec![], vec![0], vec![]]);
    assert_eq!(schedule.phase(), TickPhase::Idle);
    assert_eq!(schedule.published(), &vec![None, None, None]);

    schedule.start_tick();
    assert_eq!(schedule.phase(), TickPhase::Ticking);
    assert_eq!(schedule.next_action(), NodeAction::Run { node: 0 });
    schedule.finish_node(None);
    assert_eq!(schedule.next_action(), NodeAction::Skip { node: 1 });
    schedule.finish_node(Some(99));
    assert_eq!(schedule.next_action(), NodeAction::Run { node: 2 });
    schedule.finish_node(Some(3));
    assert_eq!(schedule.phase(), TickPhase::Publishing);
    assert_eq!(schedule.next_action(), NodeAction::Publish);
    schedule.publish();
    assert_eq!(schedule.published(), &vec![None, None, Some(3)]);
    assert_eq!(schedule.phase(), TickPhase::Idle);

    let ran = tick(&mut schedule, |node, _| Some(node as u32 + 10));
    assert_eq!(ran, vec![0, 1, 2]);
    assert_eq!(schedule.published(), &vec![Some(10), Some(11), Some(12)]);
}

#[test]
fn schedule_without_nodes_publishes_at_once() {
    let mut schedule: CyclerSchedule<u8> = CyclerSchedule::new(vec![]);
    schedule.start_tick();
    assert_eq!(schedule.next_action(), NodeAction::Publish);
    schedule.publish();
    assert!(schedule.published().is_empty());
}

#[test]
fn real_time_cycler_receives_perception_outputs_in_order() {
    // the real-time module: a first node without dependencies, a second reading its output
    let control_nodes = vec![
        Node {
            creation_context: vec![],
            cycle_context: vec![],
            main_outputs: vec![field("first_output", "MainOutput", &["u64"])],
        },
        Node {
            creation_context: vec![],
            cycle_context: vec![field("first_output", "Input", &["u64", "first_output"])],
            main_outputs: vec![field("second_output", "MainOutput", &["u64"])],
        },
    ];
    assert!(validate_entry_node(&"control".to_string(), &control_nodes).is_ok());
    let dependencies = dependencies_of(&control_nodes);
    assert_eq!(dependencies, vec![vec![], vec![0]]);
    assert_eq!(order_nodes(&dependencies), Some(vec![0, 1]));
    let perception_nodes = vec![Node {
        creation_context: vec![],
        cycle_context: vec![],
        main_outputs: vec![field("perception_output", "MainOutput", &["u64"])],
    }];
    assert!(validate_entry_node(&"vision".to_string(), &perception_nodes).is_ok());

    // two perception ticks, captured at t1 < t2
    let (t1, t2) = (100u64, 200u64);
    let mut perception: CyclerSchedule<u64> = CyclerSchedule::new(vec![vec![]]);
    let mut items = Vec::new();
    for timestamp in [t1, t2] {
        tick(&mut perception, |_, _| Some(timestamp * 2));
        items.push(Timestamped { timestamp, value: perception.published()[0].expect("perception node output") });
    }

    // the real-time trigger arrives after the perception watermark passed both
    let mut synchronizer: PerceptionSynchronizer<u64> = PerceptionSynchronizer::new(1);
    let delivered = synchronizer.merge(vec![Update {
        items,
        first_timestamp_of_non_finalized_database: Some(t2 + 1),
    }]);
    let perception_input: Vec<(u64, Option<u64>)> =
        delivered.iter().map(|d| (d.timestamp, d.slots[0])).collect();
    assert_eq!(perception_input, vec![(t1, Some(2 * t1)), (t2, Some(2 * t2))]);
    assert_eq!(synchronizer.pending_count(), 0);

    // the second node reads a plain input: it runs even when the first fails
    let mut control: CyclerSchedule<u64> = CyclerSchedule::new(vec![vec![], vec![]]);
    let latest = perception_input.last().and_then(|p| p.1).expect("latest perception");
    let ran = tick(&mut control, |node, current| match node {
        0 => Some(latest + 1),
        _ => current[0].map(|n1| n1 * 10),
    });
    assert_eq!(ran, vec![0, 1]);
    assert_eq!(control.published(), &vec![Some(401), Some(4010)]);
}
