use social_graph::{GraphData, GraphError};
use std::collections::HashMap;

fn names(list: Vec<(usize, &str)>) -> HashMap<usize, String> {
    list.into_iter().map(|(id, name)| (id, name.to_string())).collect()
}

#[test]
fn test_three_steps_bfs() {
    let nodes = vec![
        (0, "Alice".to_string()),
        (1, "Bob".to_string()),
        (2, "Charlie".to_string()),
        (3, "Dave".to_string()),
        (4, "Eve".to_string()),
    ]
    .into_iter()
    .collect::<HashMap<usize, String>>();

    // Alice -> Bob -> Charlie -> Dave -> Eve
    let edges = vec![(0, 1), (1, 2), (2, 3), (3, 4)];

    let graph = GraphData::find_connections(nodes.clone(), &edges);
    let start_name = "Alice".to_string();
    let reached = GraphData::three_steps_bfs(graph.clone(), nodes.clone(), start_name, 3);

    assert_eq!(reached, Some(3)); // Bob, Charlie, Dave
}

#[test]
fn test_popular_person() {
    let nodes = vec![
        (0, "Alice".to_string()),
        (1, "Bob".to_string()),
        (2, "Charlie".to_string()),
    ]
    .into_iter()
    .collect::<HashMap<usize, String>>();

    let edges = vec![(0, 1), (0, 2), (1, 2)];

    let connections = GraphData::find_connections(nodes.clone(), &edges);
    let most_popular = GraphData::popular_person(connections, nodes);

    assert_eq!(most_popular, "Alice");
}

#[test]
fn chain_has_a_key_for_each_node_with_an_outgoing_edge() {
    let nodes = names(vec![(0, "Alice"), (1, "Bob"), (2, "Charlie"), (3, "Dave"), (4, "Eve")]);
    let edges = vec![(0, 1), (1, 2), (2, 3), (3, 4)];
    let graph = GraphData::find_connections(nodes, &edges);
    let mut keys: Vec<usize> = graph.keys().copied().collect();
    keys.sort();
    assert_eq!(keys, vec![0, 1, 2, 3]);
    assert_eq!(graph[&0], vec![1]);
    assert_eq!(graph[&3], vec![4]);
}

#[test]
fn successors_keep_table_order_and_repetitions() {
    let nodes = names(vec![(1, "a"), (2, "b"), (3, "c")]);
    let edges = vec![(1, 3), (2, 1), (1, 2), (1, 3), (2, 2), (1, 1)];
    let graph = GraphData::find_connections(nodes, &edges);
    assert_eq!(graph.len(), 2);
    assert_eq!(graph[&1], vec![3, 2, 3, 1]);
    assert_eq!(graph[&2], vec![1, 2]);
}

#[test]
fn edges_from_unregistered_nodes_are_left_out() {
    let nodes = names(vec![(1, "a")]);
    let edges = vec![(7, 1), (1, 9), (7, 7)];
    let graph = GraphData::find_connections(nodes, &edges);
    assert_eq!(graph.len(), 1);
    assert_eq!(graph[&1], vec![9]);
}

#[test]
fn no_edges_give_an_empty_adjacency_map() {
    let nodes = names(vec![(1, "a")]);
    let graph = GraphData::find_connections(nodes, &Vec::new());
    assert!(graph.is_empty());
}

#[test]
fn strictly_dominant_node_is_the_popular_one() {
    let nodes = names(vec![(5, "Eve"), (6, "Dan"), (7, "Flo")]);
    let mut connections: HashMap<usize, Vec<usize>> = HashMap::new();
    connections.insert(5, vec![6]);
    connections.insert(7, vec![5, 6, 5]);
    connections.insert(6, vec![5, 7]);
    assert_eq!(GraphData::most_popular_id(&connections), Some(7));
    assert_eq!(GraphData::popular_person(connections, nodes), "Flo");
}

#[test]
fn smallest_id_wins_a_tie() {
    let nodes = names(vec![(0, "Alice"), (1, "Bob"), (2, "Charlie"), (3, "Dave"), (4, "Eve")]);
    let edges = vec![(3, 4), (2, 3), (1, 2), (0, 1)];
    let connections = GraphData::find_connections(nodes.clone(), &edges);
    assert_eq!(GraphData::most_popular_id(&connections), Some(0));
    assert_eq!(GraphData::popular_person(connections, nodes), "Alice");

    let mut tied: HashMap<usize, Vec<usize>> = HashMap::new();
    tied.insert(9, vec![1, 2]);
    tied.insert(4, vec![1, 2]);
    tied.insert(6, vec![1]);
    assert_eq!(GraphData::most_popular_id(&tied), Some(4));
}

#[test]
fn empty_graph_has_no_popular_person() {
    let nodes = names(vec![(0, "Alice")]);
    let connections: HashMap<usize, Vec<usize>> = HashMap::new();
    assert_eq!(GraphData::most_popular_id(&connections), None);
    assert_eq!(GraphData::popular_person(connections, nodes), "Unknown");
}

#[test]
fn node_without_successors_is_not_popular() {
    let nodes = names(vec![(3, "Cleo")]);
    let mut connections: HashMap<usize, Vec<usize>> = HashMap::new();
    connections.insert(3, Vec::new());
    assert_eq!(GraphData::most_popular_id(&connections), None);
    assert_eq!(GraphData::popular_person(connections, nodes), "Unknown");
}

#[test]
fn unregistered_popular_node_is_unknown() {
    let nodes = names(vec![(0, "Alice")]);
    let mut connections: HashMap<usize, Vec<usize>> = HashMap::new();
    connections.insert(8, vec![0, 0]);
    connections.insert(0, vec![8]);
    assert_eq!(GraphData::popular_person(connections, nodes), "Unknown");
}

#[test]
fn zero_hops_reach_nothing() {
    let nodes = names(vec![(0, "Alice"), (1, "Bob"), (2, "Charlie")]);
    let edges = vec![(0, 1), (0, 2), (1, 2)];
    let graph = GraphData::find_connections(nodes.clone(), &edges);
    for start in ["Alice", "Bob", "Charlie", "li", ""] {
        assert_eq!(
            GraphData::three_steps_bfs(graph.clone(), nodes.clone(), start.to_string(), 0),
            Some(0)
        );
    }
}

#[test]
fn reach_grows_with_the_hop_limit() {
    let nodes = names(vec![(0, "Alice"), (1, "Bob"), (2, "Charlie"), (3, "Dave"), (4, "Eve")]);
    let edges = vec![(0, 1), (1, 2), (2, 3), (3, 4)];
    let graph = GraphData::find_connections(nodes.clone(), &edges);
    let expected = [0, 1, 2, 3, 4, 4, 4];
    for (hops, want) in expected.iter().enumerate() {
        assert_eq!(
            GraphData::three_steps_bfs(graph.clone(), nodes.clone(), "Alice".to_string(), hops),
            Some(*want)
        );
    }
    assert_eq!(
        GraphData::three_steps_bfs(graph, nodes, "Alice".to_string(), usize::MAX),
        Some(4)
    );
}

#[test]
fn unmatched_start_gives_none() {
    let nodes = names(vec![(0, "Alice"), (1, "Bob")]);
    let edges = vec![(0, 1)];
    let graph = GraphData::find_connections(nodes.clone(), &edges);
    assert_eq!(GraphData::three_steps_bfs(graph.clone(), nodes.clone(), "Zed".to_string(), 3), None);
    assert_eq!(GraphData::three_steps_bfs(graph, nodes, "alice".to_string(), 3), None);
    assert_eq!(
        GraphData::three_steps_bfs(HashMap::new(), HashMap::new(), "".to_string(), 3),
        None
    );
}

#[test]
fn start_is_matched_by_substring_and_smallest_id() {
    let nodes = names(vec![(4, "Roberta"), (2, "Bob Roberts"), (9, "Rob")]);
    assert_eq!(GraphData::find_start(&nodes, "Rob"), Some(2));
    assert_eq!(GraphData::find_start(&nodes, "Roberta"), Some(4));
    assert_eq!(GraphData::find_start(&nodes, "ob R"), Some(2));
    assert_eq!(GraphData::find_start(&nodes, ""), Some(2));
    assert_eq!(GraphData::find_start(&nodes, "Robb"), None);

    let mut graph: HashMap<usize, Vec<usize>> = HashMap::new();
    graph.insert(2, vec![4, 9]);
    graph.insert(4, vec![9]);
    assert_eq!(GraphData::three_steps_bfs(graph.clone(), nodes.clone(), "Rob".to_string(), 1), Some(2));
    assert_eq!(GraphData::three_steps_bfs(graph, nodes, "Roberta".to_string(), 1), Some(1));
}

#[test]
fn search_counts_each_node_once() {
    // a cycle with a chord, a self-loop, parallel edges and a node that is no key
    let mut graph: HashMap<usize, Vec<usize>> = HashMap::new();
    graph.insert(1, vec![2, 2, 1, 3]);
    graph.insert(2, vec![3, 1]);
    graph.insert(3, vec![1, 4]);
    graph.insert(4, vec![5]);
    graph.insert(6, vec![1]);
    assert_eq!(GraphData::reach_count(&graph, 1, 0), 0);
    assert_eq!(GraphData::reach_count(&graph, 1, 1), 2);
    assert_eq!(GraphData::reach_count(&graph, 1, 2), 3);
    assert_eq!(GraphData::reach_count(&graph, 1, 3), 4);
    assert_eq!(GraphData::reach_count(&graph, 1, 10), 4);
    assert_eq!(GraphData::reach_count(&graph, 5, 10), 0);
    assert_eq!(GraphData::reach_count(&graph, 6, 2), 3);
    assert_eq!(GraphData::reach_count(&graph, 77, 2), 0);
}

#[test]
fn shortest_way_decides_the_depth() {
    // 0 reaches 3 directly and by the long way; 4 lies one hop behind 3
    let mut graph: HashMap<usize, Vec<usize>> = HashMap::new();
    graph.insert(0, vec![1, 3]);
    graph.insert(1, vec![2]);
    graph.insert(2, vec![3]);
    graph.insert(3, vec![4]);
    assert_eq!(GraphData::reach_count(&graph, 0, 1), 2);
    assert_eq!(GraphData::reach_count(&graph, 0, 2), 4);
}

#[test]
fn registry_makes_names_unique_in_table_order() {
    let rows: Vec<Vec<String>> = vec![
        vec!["x", " Ann ", "7"],
        vec!["x", "Bob", "3"],
        vec!["x", "Ann", " 1"],
        vec!["x", "\tAnn\n", "+9 "],
        vec!["x", "Bob ", "4"],
    ]
    .into_iter()
    .map(|row| row.into_iter().map(String::from).collect())
    .collect();
    let nodes = GraphData::node_registry(&rows).unwrap();
    assert_eq!(nodes.len(), 5);
    assert_eq!(nodes[&7], "Ann");
    assert_eq!(nodes[&3], "Bob");
    assert_eq!(nodes[&1], "Ann_2");
    assert_eq!(nodes[&9], "Ann_3");
    assert_eq!(nodes[&4], "Bob_2");
    let mut seen: Vec<&String> = nodes.values().collect();
    seen.sort();
    seen.dedup();
    assert_eq!(seen.len(), 5);
}

#[test]
fn registry_counts_past_nine() {
    let rows: Vec<Vec<String>> =
        (0..12).map(|id| vec!["".to_string(), "Kim".to_string(), id.to_string()]).collect();
    let nodes = GraphData::node_registry(&rows).unwrap();
    assert_eq!(nodes[&0], "Kim");
    assert_eq!(nodes[&1], "Kim_2");
    assert_eq!(nodes[&9], "Kim_10");
    assert_eq!(nodes[&11], "Kim_12");
}

#[test]
fn later_row_replaces_the_name_of_a_repeated_id() {
    let rows: Vec<Vec<String>> = vec![vec!["", "Ann", "5"], vec!["", "Ann", "5"], vec!["", "Cy", "5"]]
        .into_iter()
        .map(|row| row.into_iter().map(String::from).collect())
        .collect();
    let nodes = GraphData::node_registry(&rows[..2].to_vec()).unwrap();
    assert_eq!(nodes.len(), 1);
    assert_eq!(nodes[&5], "Ann_2");
    let nodes = GraphData::node_registry(&rows).unwrap();
    assert_eq!(nodes.len(), 1);
    assert_eq!(nodes[&5], "Cy");
}

#[test]
fn suffixed_base_name_can_collide() {
    let rows: Vec<Vec<String>> = vec![vec!["", "a", "0"], vec!["", "a_2", "1"], vec!["", "a", "2"]]
        .into_iter()
        .map(|row| row.into_iter().map(String::from).collect())
        .collect();
    let nodes = GraphData::node_registry(&rows).unwrap();
    assert_eq!(nodes[&0], "a");
    assert_eq!(nodes[&1], "a_2");
    assert_eq!(nodes[&2], "a_2");
}

#[test]
fn registry_reports_the_first_bad_row() {
    let table = |rows: Vec<Vec<&str>>| -> Vec<Vec<String>> {
        rows.into_iter().map(|row| row.into_iter().map(String::from).collect()).collect()
    };
    assert_eq!(
        GraphData::node_registry(&table(vec![vec!["", "a", "1"], vec!["only"]])).unwrap_err(),
        GraphError::MissingField { row: 1, column: 1 }
    );
    assert_eq!(
        GraphData::node_registry(&table(vec![vec!["", "a"]])).unwrap_err(),
        GraphError::MissingField { row: 0, column: 2 }
    );
    assert_eq!(
        GraphData::node_registry(&table(vec![vec![]])).unwrap_err(),
        GraphError::MissingField { row: 0, column: 1 }
    );
    assert_eq!(
        GraphData::node_registry(&table(vec![
            vec!["", "a", "1"],
            vec!["", "b", "2"],
            vec!["", "c", "x3"],
            vec!["", "d"],
        ]))
        .unwrap_err(),
        GraphError::InvalidId { row: 2, column: 2 }
    );
    assert_eq!(
        GraphData::node_registry(&table(vec![vec!["", "a", "-1"]])).unwrap_err(),
        GraphError::InvalidId { row: 0, column: 2 }
    );
    assert!(GraphData::node_registry(&table(vec![])).unwrap().is_empty());
}

#[test]
fn edge_list_reads_pairs_in_order() {
    let rows: Vec<Vec<String>> = vec![vec!["1", "2"], vec![" 3", "1 ", "ignored"], vec!["1", "2"]]
        .into_iter()
        .map(|row| row.into_iter().map(String::from).collect())
        .collect();
    assert_eq!(GraphData::edge_list(&rows), Ok(vec![(1, 2), (3, 1), (1, 2)]));
    assert_eq!(GraphData::edge_list(&Vec::new()), Ok(Vec::new()));
}

#[test]
fn edge_list_reports_the_first_bad_row() {
    let table = |rows: Vec<Vec<&str>>| -> Vec<Vec<String>> {
        rows.into_iter().map(|row| row.into_iter().map(String::from).collect()).collect()
    };
    assert_eq!(
        GraphData::edge_list(&table(vec![vec!["1", "2"], vec![]])),
        Err(GraphError::MissingField { row: 1, column: 0 })
    );
    assert_eq!(
        GraphData::edge_list(&table(vec![vec!["1"]])),
        Err(GraphError::MissingField { row: 0, column: 1 })
    );
    assert_eq!(
        GraphData::edge_list(&table(vec![vec!["one"]])),
        Err(GraphError::InvalidId { row: 0, column: 0 })
    );
    assert_eq!(
        GraphData::edge_list(&table(vec![vec!["1", "2"], vec!["3", "4"], vec!["5", "6.0"], vec!["x", "y"]])),
        Err(GraphError::InvalidId { row: 2, column: 1 })
    );
}

#[test]
fn node_table_is_read_from_csv_bytes() {
    let data = b"id,name,new_id\n100,Alice,0\n101, Bob ,1\n102,\"Smith, Al\",2\n103,Alice,3\n";
    let nodes = GraphData::read_nodes(data).unwrap();
    assert_eq!(nodes.len(), 4);
    assert_eq!(nodes[&0], "Alice");
    assert_eq!(nodes[&1], "Bob");
    assert_eq!(nodes[&2], "Smith, Al");
    assert_eq!(nodes[&3], "Alice_2");
}

#[test]
fn edge_table_is_read_from_csv_bytes() {
    let data = b"from,to\n0,1\n1,2\n 2 , 0 \n";
    assert_eq!(GraphData::read_edges(data), Ok(vec![(0, 1), (1, 2), (2, 0)]));
    assert_eq!(GraphData::read_edges(b"from,to\n"), Ok(Vec::new()));
    assert_eq!(GraphData::read_edges(b""), Ok(Vec::new()));
}

#[test]
fn header_row_is_skipped() {
    assert_eq!(GraphData::read_edges(b"7,8\n1,2\n"), Ok(vec![(1, 2)]));
    let nodes = GraphData::read_nodes(b"0,Zed,0\n1,Amy,5\n").unwrap();
    assert_eq!(nodes.len(), 1);
    assert_eq!(nodes[&5], "Amy");
}

#[test]
fn unreadable_records_are_reported() {
    // a record with another number of fields than the header
    assert_eq!(GraphData::read_edges(b"from,to\n1,2\n3\n"), Err(GraphError::Unreadable { row: 1 }));
    assert_eq!(
        GraphData::read_nodes(b"id,name,new_id\n1,Al,0,extra\n").unwrap_err(),
        GraphError::Unreadable { row: 0 }
    );
    // a field that is not UTF-8
    assert_eq!(
        GraphData::read_edges(b"from,to\n1,2\n2,3\n1,\xff\n4,5\n"),
        Err(GraphError::Unreadable { row: 2 })
    );
}

#[test]
fn first_failing_record_decides() {
    // the bad id stands before the unreadable record
    assert_eq!(
        GraphData::read_edges(b"from,to\n1,2\nx,3\n4\n"),
        Err(GraphError::InvalidId { row: 1, column: 0 })
    );
    // the unreadable record stands before the bad id
    assert_eq!(
        GraphData::read_edges(b"from,to\n1,2\n4\nx,3\n"),
        Err(GraphError::Unreadable { row: 1 })
    );
    assert_eq!(
        GraphData::read_nodes(b"id,name,new_id\n1,Al,zero\n1,Al\n").unwrap_err(),
        GraphError::InvalidId { row: 0, column: 2 }
    );
    assert_eq!(
        GraphData::read_nodes(b"id,name,new_id\n1,Al,0\n1,Al\n2,Bo,one\n").unwrap_err(),
        GraphError::Unreadable { row: 1 }
    );
}

#[test]
fn malformed_rows_in_csv_bytes_are_reported() {
    assert_eq!(
        GraphData::read_nodes(b"id,name,new_id\n1,Al,0\n2,Bo,two\n").unwrap_err(),
        GraphError::InvalidId { row: 1, column: 2 }
    );
    assert_eq!(
        GraphData::read_nodes(b"id,name\n1,Al\n").unwrap_err(),
        GraphError::MissingField { row: 0, column: 2 }
    );
    assert_eq!(
        GraphData::read_edges(b"from\n1\n"),
        Err(GraphError::MissingField { row: 0, column: 1 })
    );
    assert_eq!(
        GraphData::read_edges(b"from,to\n1,2\n-3,4\n"),
        Err(GraphError::InvalidId { row: 1, column: 0 })
    );
}

#[test]
fn whole_pipeline_from_bytes() {
    let nodes = GraphData::read_nodes(
        b"id,name,new_id\n10,Alice,0\n11,Bob,1\n12,Charlie,2\n13,Dave,3\n14,Eve,4\n",
    )
    .unwrap();
    let edges = GraphData::read_edges(b"from,to\n0,1\n0,2\n1,2\n2,3\n3,4\n").unwrap();
    let connections = GraphData::find_connections(nodes.clone(), &edges);
    assert_eq!(connections.len(), 4);
    let popular = GraphData::popular_person(connections.clone(), nodes.clone());
    assert_eq!(popular, "Alice");
    assert_eq!(GraphData::three_steps_bfs(connections.clone(), nodes.clone(), popular.clone(), 1), Some(2));
    assert_eq!(GraphData::three_steps_bfs(connections.clone(), nodes.clone(), popular.clone(), 2), Some(3));
    assert_eq!(GraphData::three_steps_bfs(connections, nodes, popular, 3), Some(4));
}

#[test]
fn graph_data_holds_its_three_parts() {
    let nodes = names(vec![(0, "Alice"), (1, "Bob")]);
    let edges = vec![(0, 1)];
    let connections = GraphData::find_connections(nodes.clone(), &edges);
    let graph = GraphData { nodes, edges, connections };
    assert_eq!(graph.nodes[&1], "Bob");
    assert_eq!(graph.edges, vec![(0, 1)]);
    assert_eq!(graph.connections[&0], vec![1]);
}
