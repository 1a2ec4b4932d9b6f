use pathfinding::agents::AgentPaths;
use pathfinding::pos2::Pos2;

fn p(x: i64, y: i64) -> Pos2 {
    Pos2::new(x, y)
}

#[test]
fn second_request_while_pending_is_suppressed() {
    let mut a = AgentPaths::new();
    a.add_agent(1, p(0, 0));
    let first = a.request(1, vec![p(3, 3)]).unwrap();
    assert_eq!(first.agent, 1);
    assert_eq!(first.start, p(0, 0));
    assert_eq!(first.waypoints, vec![p(3, 3)]);
    assert!(a.agents[0].pending);
    assert!(a.request(1, vec![p(4, 4)]).is_none());
    assert_eq!(a.agents.len(), 1);
    a.complete(1, Some(vec![p(0, 0), p(1, 0)]));
    assert!(!a.agents[0].pending);
    assert!(a.request(1, vec![p(4, 4)]).is_some());
}

#[test]
fn answer_for_removed_agent_is_dropped() {
    let mut a = AgentPaths::new();
    a.add_agent(7, p(2, 2));
    assert!(a.request(7, vec![p(5, 5)]).is_some());
    a.remove_agent(7);
    assert!(a.agents.is_empty());
    a.complete(7, Some(vec![p(2, 2), p(3, 2)]));
    assert!(a.agents.is_empty());
}

#[test]
fn answer_for_agent_not_pending_is_dropped() {
    let mut a = AgentPaths::new();
    a.add_agent(1, p(0, 0));
    a.complete(1, Some(vec![p(0, 0), p(0, 1)]));
    assert!(a.agents[0].path.is_empty());
}

#[test]
fn answer_installs_or_clears_path() {
    let mut a = AgentPaths::new();
    a.add_agent(1, p(0, 0));
    a.request(1, vec![p(0, 2)]);
    a.complete(1, Some(vec![p(0, 0), p(0, 1), p(0, 2)]));
    assert_eq!(a.agents[0].path, vec![p(0, 0), p(0, 1), p(0, 2)]);
    a.request(1, vec![p(9, 9)]);
    a.complete(1, None);
    assert!(a.agents[0].path.is_empty());
    assert!(!a.agents[0].pending);
}

#[test]
fn step_moves_one_cell_per_tick() {
    let mut a = AgentPaths::new();
    a.add_agent(1, p(0, 0));
    a.add_agent(2, p(5, 5));
    a.request(1, vec![p(0, 2)]);
    a.complete(1, Some(vec![p(0, 0), p(0, 1), p(0, 2)]));
    a.step();
    assert_eq!(a.agents[0].pos, p(0, 0));
    a.step();
    assert_eq!(a.agents[0].pos, p(0, 1));
    a.step();
    assert_eq!(a.agents[0].pos, p(0, 2));
    assert!(a.agents[0].path.is_empty());
    a.step();
    assert_eq!(a.agents[0].pos, p(0, 2));
    assert_eq!(a.agents[1].pos, p(5, 5));
}

#[test]
fn navigate_sends_queued_route_to_each_free_selected_agent() {
    let mut a = AgentPaths::new();
    a.add_agent(1, p(0, 0));
    a.add_agent(2, p(1, 1));
    a.add_agent(3, p(2, 2));
    a.request(2, vec![p(8, 8)]);
    a.queue_point(p(4, 4));
    let reqs = a.navigate(p(6, 6), &vec![1, 2, 3, 1, 99]);
    assert_eq!(reqs.len(), 2);
    assert_eq!(reqs[0].agent, 1);
    assert_eq!(reqs[0].start, p(0, 0));
    assert_eq!(reqs[0].waypoints, vec![p(4, 4), p(6, 6)]);
    assert_eq!(reqs[1].agent, 3);
    assert_eq!(reqs[1].start, p(2, 2));
    assert!(a.queued_points.is_empty());
    assert!(a.agents.iter().all(|s| s.pending));
}

#[test]
fn navigate_without_selection_only_clears_the_queue() {
    let mut a = AgentPaths::new();
    a.add_agent(1, p(0, 0));
    a.queue_point(p(4, 4));
    let reqs = a.navigate(p(6, 6), &vec![]);
    assert!(reqs.is_empty());
    assert!(a.queued_points.is_empty());
    assert!(!a.agents[0].pending);
}

#[test]
fn adding_a_known_agent_moves_it() {
    let mut a = AgentPaths::new();
    a.add_agent(4, p(0, 0));
    a.add_agent(4, p(3, 1));
    assert_eq!(a.agents.len(), 1);
    assert_eq!(a.agents[0].pos, p(3, 1));
}

#[test]
fn pick_finds_agents_on_a_cell() {
    let mut a = AgentPaths::new();
    a.add_agent(1, p(2, 2));
    a.add_agent(2, p(3, 3));
    a.add_agent(3, p(2, 2));
    assert_eq!(a.agents_at(p(2, 2)), vec![1, 3]);
    assert_eq!(a.agents_at(p(3, 3)), vec![2]);
    assert!(a.agents_at(p(0, 0)).is_empty());
}
