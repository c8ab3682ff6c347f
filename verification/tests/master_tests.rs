use connect_four::board::{Board, GameStatus, TokenColor};
use connect_four::master::{merge_responses, next_rank, Dispatcher, Master};
use connect_four::node::Node;
use connect_four::task::Assignment;
use connect_four::value::Value;
use connect_four::worker::process_assignment;

#[test]
fn plan_covers_every_open_pair() {
    let mut master = Master::new(Board::new(6, 7));
    master.player_move(3).unwrap();
    let (root, tasks) = master.plan(3);
    assert_eq!(root.color, TokenColor::Yellow);
    assert_eq!(root.column, 3);
    assert_eq!(root.children.len(), 7);
    // On a nearly empty board no second-ply continuation is terminal:
    // one task per (ply-1, ply-2) pair.
    assert_eq!(tasks.len(), 49);
    let mut seen = vec![vec![false; 7]; 7];
    for task in &tasks {
        let (i, j) = task.indexes;
        assert!(!seen[i][j], "pair handed out twice");
        seen[i][j] = true;
        assert_eq!(task.node.status, GameStatus::InProgress);
        assert_eq!(task.node.children.len(), 0);
        assert_eq!(task.node.column, root.children[i].children[j].column);
        // The task's board is the live board moved forward through
        // both plies: three tokens in all.
        let mut count = 0;
        for r in 0..6 {
            for c in 0..7 {
                if task.board.get_cell(r, c) != connect_four::board::Field::Empty {
                    count += 1;
                }
            }
        }
        assert_eq!(count, 3);
    }
    assert!(seen.iter().all(|row| row.iter().all(|&s| s)));
}

#[test]
fn plan_skips_finished_continuations() {
    let mut board = Board::new(6, 7);
    // Yellow threatens a row win at column 3.
    board.make_move(0, TokenColor::Yellow).unwrap();
    board.make_move(1, TokenColor::Yellow).unwrap();
    board.make_move(2, TokenColor::Yellow).unwrap();
    board.make_move(6, TokenColor::Red).unwrap();
    board.make_move(6, TokenColor::Red).unwrap();
    let mut master = Master::new(board);
    let (root, tasks) = master.plan(2);
    assert_eq!(root.children.len(), 7);
    // Unless the coordinator's own reply takes column 3 first, the
    // human's column-3 reply ends the game and yields no task: of the
    // 49 pairs, 6 are terminal.
    assert_eq!(tasks.len(), 43);
    for task in &tasks {
        assert_eq!(task.node.status, GameStatus::InProgress);
        let (i, j) = task.indexes;
        let stub = &root.children[i].children[j];
        assert_eq!(stub.status, GameStatus::InProgress);
    }
}

#[test]
fn merge_places_responses_by_coordinates() {
    let mut master = Master::new(Board::new(6, 7));
    master.player_move(0).unwrap();
    let (mut root, tasks) = master.plan(0);
    let task = tasks
        .into_iter()
        .find(|t| t.indexes == (2, 5))
        .unwrap();
    let mut node = task.node;
    node.value = Some(Value { num: 1, den: 2 });
    let response = Assignment::new(node, task.board, task.indexes);
    merge_responses(&mut root, &vec![response]);
    assert_eq!(root.children[2].children[5].value, Some(Value { num: 1, den: 2 }));
    assert_eq!(root.children[2].children[4].value, None);
}

#[test]
fn best_move_prefers_the_won_child() {
    let master = Master::new(Board::new(6, 7));
    let mut root = Node::new(TokenColor::Yellow, 0, GameStatus::InProgress);
    root.add_child(Node::new(TokenColor::Red, 0, GameStatus::InProgress));
    root.add_child(Node::new(TokenColor::Red, 1, GameStatus::Finished(TokenColor::Red)));
    root.add_child(Node::new(TokenColor::Red, 2, GameStatus::Finished(TokenColor::Yellow)));
    let best = master.calculate_best_move(&mut root).unwrap();
    assert_eq!(best, 1);
    assert_eq!(root.children[0].value, Some(Value { num: 0, den: 1 }));
    assert_eq!(root.children[1].value, Some(Value { num: 1, den: 1 }));
    assert_eq!(root.children[2].value, Some(Value { num: -1, den: 1 }));
}

#[test]
fn best_move_first_seen_wins_ties() {
    let master = Master::new(Board::new(6, 7));
    let mut root = Node::new(TokenColor::Yellow, 0, GameStatus::InProgress);
    root.add_child(Node::new(TokenColor::Red, 4, GameStatus::InProgress));
    root.add_child(Node::new(TokenColor::Red, 5, GameStatus::InProgress));
    root.add_child(Node::new(TokenColor::Red, 6, GameStatus::InProgress));
    let best = master.calculate_best_move(&mut root).unwrap();
    assert_eq!(best, 4);
}

fn stub_task(column: usize, indexes: (usize, usize)) -> Assignment {
    Assignment::new(
        Node::new(TokenColor::Yellow, column, GameStatus::InProgress),
        Board::new(6, 7),
        indexes,
    )
}

#[test]
fn dispatcher_hands_each_task_out_once() {
    let mut dispatcher = Dispatcher::new(vec![stub_task(0, (0, 0)), stub_task(1, (0, 1))], 0, 3);
    assert!(!dispatcher.is_complete());
    // Round-robin while tasks are pending.
    assert_eq!(dispatcher.next_source(0), 1);
    let first = dispatcher.handle_request(1).unwrap();
    assert_eq!(first.indexes, (0, 1));
    assert_eq!(dispatcher.outstanding_at(1), 1);
    assert_eq!(dispatcher.next_source(1), 2);
    let second = dispatcher.handle_request(2).unwrap();
    assert_eq!(second.indexes, (0, 0));
    dispatcher.handle_result(1, first);
    assert_eq!(dispatcher.outstanding_at(1), 0);
    assert!(!dispatcher.is_complete());
    dispatcher.handle_result(2, second);
    assert!(dispatcher.is_complete());
    let results = dispatcher.into_results();
    assert_eq!(results.len(), 2);
}

#[test]
fn empty_dispatcher_is_complete_at_once() {
    let mut dispatcher = Dispatcher::new(Vec::new(), 0, 2);
    assert!(dispatcher.is_complete());
    assert!(dispatcher.handle_request(1).is_none());
}

#[test]
fn drained_queue_polls_only_ranks_owing_results() {
    // The canonical three-process turn: once the last task has gone
    // out, the coordinator's next receive must name the rank that owes
    // the result — never an idle rank whose fresh request it could not
    // answer.
    let tasks = vec![stub_task(0, (0, 0)), stub_task(1, (0, 1)), stub_task(2, (0, 2))];
    let mut dispatcher = Dispatcher::new(tasks, 0, 3);
    let a = dispatcher.handle_request(1).unwrap();
    let b = dispatcher.handle_request(2).unwrap();
    dispatcher.handle_result(1, a);
    dispatcher.handle_result(2, b);
    let c = dispatcher.handle_request(1).unwrap();
    // Only rank 1 still owes; rank 2's next request stays queued at
    // the transport until the next turn or the shutdown.
    assert_eq!(dispatcher.outstanding_at(1), 1);
    assert_eq!(dispatcher.outstanding_at(2), 0);
    assert_eq!(dispatcher.next_source(1), 1);
    assert_eq!(dispatcher.next_source(2), 1);
    dispatcher.handle_result(1, c);
    assert!(dispatcher.is_complete());
}

#[test]
fn simulated_dispatch_loop_completes() {
    // The coordinator's receive loop, driven exactly as app code
    // drives it, against two in-process workers that follow the
    // request/compute/result protocol. A blocking receive that would
    // find no message, or a request the queue cannot answer, fails the
    // test — so this run shows the discipline neither deadlocks nor
    // starves a worker, and leaves one pending request per worker for
    // the shutdown to answer.
    let mut master = Master::new(Board::new(6, 7));
    master.player_move(3).unwrap();
    let (mut root, tasks) = master.plan(3);
    let task_count = tasks.len();
    let my_rank = 0i32;
    let size = 3i32;
    let mut dispatcher = Dispatcher::new(tasks, my_rank, size);
    // Per-rank mailboxes toward the coordinator; None is a work
    // request, Some a completed assignment. Every worker begins by
    // asking for work.
    let mut inbox: Vec<Vec<Option<Assignment>>> = vec![vec![], vec![None], vec![None]];
    let mut cursor = my_rank;
    let mut steps = 0usize;
    while !dispatcher.is_complete() {
        steps += 1;
        assert!(steps <= 4 * task_count + 4, "the dispatch loop did not converge");
        let src = dispatcher.next_source(cursor);
        cursor = src;
        assert!(!inbox[src as usize].is_empty(), "blocking receive from a silent rank");
        match inbox[src as usize].remove(0) {
            None => {
                let mut task = dispatcher
                    .handle_request(src)
                    .expect("a work request arrived that the queue cannot answer");
                process_assignment(&mut task, 2, TokenColor::Red, TokenColor::Yellow).unwrap();
                inbox[src as usize].push(Some(task));
                inbox[src as usize].push(None);
            }
            Some(done) => {
                assert!(dispatcher.outstanding_at(src) >= 1);
                dispatcher.handle_result(src, done);
            }
        }
    }
    // Exactly one unanswered request per worker remains for the
    // shutdown to receive and answer.
    for rank in 1..size {
        assert_eq!(inbox[rank as usize].len(), 1);
        assert!(inbox[rank as usize][0].is_none());
    }
    let responses = dispatcher.into_results();
    assert_eq!(responses.len(), task_count);
    merge_responses(&mut root, &responses);
    let best = master.calculate_best_move(&mut root).unwrap();
    assert!(best < 7);
}

#[test]
fn round_robin_skips_the_coordinator() {
    assert_eq!(next_rank(0, 0, 4), 1);
    assert_eq!(next_rank(1, 0, 4), 2);
    assert_eq!(next_rank(2, 0, 4), 3);
    assert_eq!(next_rank(3, 0, 4), 1);
    assert_eq!(next_rank(1, 2, 4), 3);
    assert_eq!(next_rank(3, 2, 4), 0);
    assert_eq!(next_rank(0, 1, 2), 0);
}

#[test]
fn full_turn_with_local_workers() {
    // One whole coordinator turn, with every task worked in-process:
    // plan, deep-expand each assignment, merge every result back, and
    // choose a move.
    let mut master = Master::new(Board::new(6, 7));
    master.player_move(3).unwrap();
    let (mut root, tasks) = master.plan(3);
    let task_count = tasks.len();
    let mut responses = Vec::new();
    for mut task in tasks {
        process_assignment(&mut task, 2, TokenColor::Red, TokenColor::Yellow).unwrap();
        responses.push(task);
    }
    assert_eq!(responses.len(), task_count);
    merge_responses(&mut root, &responses);
    for response in &responses {
        let (i, j) = response.indexes;
        assert!(root.children[i].children[j].value.is_some());
    }
    let best = master.calculate_best_move(&mut root).unwrap();
    assert!(best < 7);
    master.cpu_move(best).unwrap();
    assert_eq!(master.game_status(), GameStatus::InProgress);
}

#[test]
fn coordinator_takes_an_open_win() {
    // Red can finish a row this turn; the +1 child moved by the cpu
    // color dominates every alternative, so the coordinator plays it.
    let mut board = Board::new(6, 7);
    board.make_move(0, TokenColor::Red).unwrap();
    board.make_move(1, TokenColor::Red).unwrap();
    board.make_move(2, TokenColor::Red).unwrap();
    board.make_move(0, TokenColor::Yellow).unwrap();
    board.make_move(1, TokenColor::Yellow).unwrap();
    board.make_move(2, TokenColor::Yellow).unwrap();
    let mut master = Master::new(board);
    let (mut root, tasks) = master.plan(2);
    let mut responses = Vec::new();
    for mut task in tasks {
        process_assignment(&mut task, 2, TokenColor::Red, TokenColor::Yellow).unwrap();
        responses.push(task);
    }
    merge_responses(&mut root, &responses);
    let best = master.calculate_best_move(&mut root).unwrap();
    assert_eq!(best, 3);
    assert_eq!(root.children[3].value, Some(Value { num: 1, den: 1 }));
    master.cpu_move(best).unwrap();
    assert_eq!(master.game_status(), GameStatus::Finished(TokenColor::Red));
}

#[test]
fn master_applies_and_reports_moves() {
    let mut master = Master::new(Board::new(6, 7));
    assert_eq!(master.game_status(), GameStatus::InProgress);
    assert!(master.player_move(9).is_err());
    assert!(master.player_move(3).is_ok());
    assert!(master.cpu_move(3).is_ok());
    let board = master.board();
    assert_eq!(
        board.get_cell(5, 3),
        connect_four::board::Field::Token(TokenColor::Yellow)
    );
    assert_eq!(
        board.get_cell(4, 3),
        connect_four::board::Field::Token(TokenColor::Red)
    );
}
