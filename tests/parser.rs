use std::collections::HashSet;
use std::iter::FromIterator;

use rbuild::graph::{CompileError, Graph};
use rbuild::parser::{ConfigError, Parser};

fn make_parser(inp: &str) -> Parser {
    Parser::new(inp)
}

#[test]
fn can_construct_parser() {
    let _ = make_parser("hi");
}

#[test]
fn can_parse_node() {
    let parser = make_parser("  path   /my/path ");
    let graph = parser.parse().unwrap();
    assert_eq!(graph.get(0).unwrap().path, "/my/path");
}

#[test]
fn can_parse_multiple_nodes() {
    let parser = make_parser("path /my/path/0 path /my/path/1");
    let graph = parser.parse().unwrap();
    assert_eq!(graph.get(0).unwrap().path, "/my/path/0");
    assert_eq!(graph.get(1).unwrap().path, "/my/path/1");
}

#[test]
fn can_parse_multiple_nodes_with_deps() {
    let parser = make_parser("path #0 /my/path/0 path /my/path/1 deps 0");
    let graph = parser.parse().unwrap();
    assert_eq!(graph.get(0).unwrap().path, "/my/path/0");
    assert_eq!(graph.get(1).unwrap().path, "/my/path/1");
    // Compiling for node 1 makes node 0 the recipe's input.
    let recipe = graph.compile(&vec![1]).unwrap();
    assert_eq!(HashSet::<usize>::from_iter(recipe.inputs.iter().cloned()), HashSet::from_iter(vec![0 as usize]));
    assert_eq!(HashSet::<usize>::from_iter(recipe.outputs.iter().cloned()), HashSet::from_iter(vec![1 as usize]));
}

#[test]
fn commands_and_always_commands_are_read() {
    let g = Graph::from_config("path out run cc -o out in.c always echo done path x").unwrap();
    let t = g.get(0).unwrap();
    assert_eq!(t.cmds.len(), 1);
    assert_eq!(t.cmds[0].program, "cc");
    assert_eq!(t.cmds[0].args, vec!["-o".to_string(), "out".to_string(), "in.c".to_string()]);
    assert_eq!(t.cmds[0].cached_fingerprint, None);
    assert_eq!(t.always_cmds.len(), 1);
    assert_eq!(t.always_cmds[0].program, "echo");
    assert_eq!(g.get(1).unwrap().path, "x");
    assert_eq!(g.len(), 2);
}

#[test]
fn config_errors() {
    assert_eq!(Graph::from_config("run x").unwrap_err(), ConfigError::KeywordBeforePath);
    assert_eq!(Graph::from_config("path").unwrap_err(), ConfigError::ExpectedPath);
    assert_eq!(Graph::from_config("path deps").unwrap_err(), ConfigError::ExpectedPath);
    assert_eq!(Graph::from_config("path a deps").unwrap_err(), ConfigError::DanglingKeyword);
    assert_eq!(Graph::from_config("path a run").unwrap_err(), ConfigError::DanglingKeyword);
    assert_eq!(Graph::from_config("path a deps x").unwrap_err(), ConfigError::DanglingKeyword);
    assert_eq!(Graph::from_config("path a 3").unwrap_err(), ConfigError::UnexpectedToken);
    assert_eq!(Graph::from_config("oops").unwrap_err(), ConfigError::UnexpectedToken);
    assert_eq!(Graph::from_config("path 'a").unwrap_err(), ConfigError::UnterminatedQuote);
    assert_eq!(Graph::from_config("path a deps 1").unwrap_err(), ConfigError::UndefinedDependency(1));
    assert_eq!(
        Graph::from_config("path a path a").unwrap_err(),
        ConfigError::DuplicatePath("a".to_string())
    );
}

#[test]
fn forward_dependencies_are_resolved() {
    let g = Graph::from_config("path a deps 1 path b").unwrap();
    assert_eq!(g.inputs_of(0).unwrap(), &vec![1]);
    assert_eq!(g.get_index("b"), Some(1));
    assert_eq!(g.get_index("c"), None);
}

#[test]
fn unknown_target_is_rejected() {
    let g = Graph::from_config("path a").unwrap();
    assert_eq!(g.compile(&vec![0, 3]).unwrap_err(), CompileError::UnknownTarget(3));
}
