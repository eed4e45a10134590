use ast_graph::geometry::{GPoint, GRange};
use ast_graph::tree::SyntaxNode;
use ast_graph::ASTGraph;
use std::collections::HashSet;
use tree_sitter::{Node, Parser, TreeCursor};

const CPP_STRING: &str = r#"
    #include <iostream>
    #include <fstream>
    #include <string>

    void readFile(const std::string& filePath) {
        std::ifstream file(filePath);

        if (!file.is_open()) {
            std::cerr << "Error reading file: Could not open the file." << std::endl;
            return;
        }

        std::string line;
        while (std::getline(file, line)) {
            std::cout << line << std::endl;
        }

        file.close();
    }

    int main() {
        std::string filePath;

        // Prompt the user for the file path
        std::cout << "Enter the file path: ";
        std::getline(std::cin, filePath);

        readFile(filePath);

        return 0;
    }
    "#;

const CPP_STRING_TRIMMED: &str = r#"
    void readFile(const std::string& filePath) {
        std::ifstream file(filePath);

        if (!file.is_open()) {
            std::cerr << "Error reading file: Could not open the file." << std::endl;
            return;
        }

        std::string line;
        while (std::getline(file, line)) {
            std::cout << line << std::endl;
        }

        file.close();
    }
    int main() {
        std::string filePath;

        // Prompt the user for the file path
        std::cout << "Enter the file path: ";
        std::getline(std::cin, filePath);

        readFile(filePath);

        return 0;
    }
    "#;

fn syntax_node_of(node: Node) -> SyntaxNode {
    let mut children = Vec::new();
    for idx in 0..node.child_count() {
        if let Some(child) = node.child(idx) {
            children.push(syntax_node_of(child));
        }
    }
    let r = node.range();
    SyntaxNode {
        id: node.id(),
        kind_id: node.kind_id(),
        range: GRange {
            start_byte: r.start_byte,
            end_byte: r.end_byte,
            start_point: GPoint { row: r.start_point.row, column: r.start_point.column },
            end_point: GPoint { row: r.end_point.row, column: r.end_point.column },
        },
        children,
    }
}

/// The kind id of `function_definition` in the C++ grammar.
fn cpp_function_definition_kind() -> u16 {
    let language: tree_sitter::Language = tree_sitter_cpp::LANGUAGE.into();
    language.id_for_node_kind("function_definition", true)
}

fn cpp_graph(source: &str) -> (ASTGraph, tree_sitter::Tree) {
    let mut parser = Parser::new();
    parser.set_language(&tree_sitter_cpp::LANGUAGE.into()).expect("Error loading CPP grammar");
    let tree = parser.parse(source, None).unwrap();
    let mut ast_graph = ASTGraph::new(source.to_string());
    ast_graph.build_from_tree(&syntax_node_of(tree.root_node()));
    (ast_graph, tree)
}

#[test]
fn correct_split_for_cpp() {
    let (ast_graph, _tree) = cpp_graph(CPP_STRING);
    let cpp_function_definition: u16 = cpp_function_definition_kind();
    let mut cpp_types_to_split = HashSet::new();
    cpp_types_to_split.insert(cpp_function_definition);
    let function_subgraphs = ast_graph.extract_subgraphs(cpp_types_to_split);
    assert_eq!(function_subgraphs.len(), 2);
}

#[test]
fn test_split_cpp_source() {
    let (ast_graph, _tree) = cpp_graph(CPP_STRING_TRIMMED);
    let cpp_function_definition: u16 = cpp_function_definition_kind();
    let mut cpp_types_to_split = HashSet::new();
    cpp_types_to_split.insert(cpp_function_definition);
    let function_subgraphs = ast_graph.extract_subgraphs(cpp_types_to_split);
    assert_eq!(function_subgraphs.len(), 2);

    let total_length = ast_graph.source().len();
    let mut function_total_length = 0;
    for func in function_subgraphs {
        function_total_length += func.source().len();
    }
    // 15 bytes extra, even in the trimmed case.
    assert_eq!(function_total_length + 15, total_length);
}

fn count_nodes(cursor: &mut TreeCursor) -> usize {
    let mut count = 1;
    if cursor.goto_first_child() {
        count += count_nodes(cursor);
        while cursor.goto_next_sibling() {
            count += count_nodes(cursor);
        }
        cursor.goto_parent();
    }
    count
}

#[test]
fn tree_sitter_node_count_test() {
    let (ast_graph, tree) = cpp_graph(CPP_STRING_TRIMMED);
    let mut cursor = tree.root_node().walk();
    let tree_node_count = count_nodes(&mut cursor);
    assert_eq!(tree_node_count, ast_graph.node_count());
    assert_eq!(ast_graph.edge_count() + 1, ast_graph.node_count());
}

#[test]
fn cpp_subgraph_names_and_sizes() {
    let (ast_graph, _tree) = cpp_graph(CPP_STRING_TRIMMED);
    let mut kinds = HashSet::new();
    kinds.insert(cpp_function_definition_kind());
    let function_subgraphs = ast_graph.extract_subgraphs(kinds);
    assert_eq!(function_subgraphs.len(), 2);
    for subgraph in function_subgraphs.iter() {
        let name = subgraph.name();
        assert!(name.starts_with("node_") && name.ends_with("_graph"));
        assert_eq!(subgraph.edge_count() + 1, subgraph.node_count());
        assert!(subgraph.to_serializable().nodes.len() > 0);
    }
}

const FORTRAN_CODE: &str = r#"
    program combined_program
        implicit none

        ! Call the functions
        call pointer_dangling()
        call type_conversion()

    end program combined_program

    ! Function to demonstrate a dangling pointer
    subroutine pointer_dangling()
        implicit none
        integer, pointer :: p
        integer, target :: t

        allocate(p)
        p => t
        deallocate(p) ! p is now freed, and so dangling

        ! Print statement commented to avoid runtime error from dangling pointer
        ! print *, p ! dereference
        print *, "Dangling pointer scenario demonstrated."
    end subroutine pointer_dangling

    ! Function to illustrate type conversion issues
    subroutine type_conversion()
        implicit none
        integer :: i
        real :: r

        ! Potential overflow for 32-bit integer
        i = 2**31
        print *, "Integer potential overflow value: ", i

        ! Division by zero scenario
        r = 1.0 / 0.0
        print *, "Result of division by zero: ", r
    end subroutine type_conversion
    "#;

fn fortran_graph() -> ASTGraph {
    let mut parser = Parser::new();
    parser.set_language(&tree_sitter_fortran::LANGUAGE.into()).expect("Error loading Fortran grammar");
    let tree = parser.parse(FORTRAN_CODE, None).unwrap();
    let mut ast_graph = ASTGraph::new(FORTRAN_CODE.to_string());
    ast_graph.build_from_tree(&syntax_node_of(tree.root_node()));
    ast_graph
}

/// The kind ids of `subroutine` and `program` in the Fortran grammar.
fn fortran_types_to_split() -> HashSet<u16> {
    let language: tree_sitter::Language = tree_sitter_fortran::LANGUAGE.into();
    let fortran_subroutine_kind: u16 = language.id_for_node_kind("subroutine", true);
    let fortran_program_kind: u16 = language.id_for_node_kind("program", true);
    let mut kinds = HashSet::new();
    kinds.insert(fortran_subroutine_kind);
    kinds.insert(fortran_program_kind);
    kinds
}

#[test]
fn correct_number_of_subgraphs() {
    let ast_graph = fortran_graph();
    let function_subgraphs = ast_graph.extract_subgraphs(fortran_types_to_split());
    // 2 subroutines and 1 program = 3 subgraphs
    assert_eq!(function_subgraphs.len(), 3);
}

#[test]
fn count_nodes_in_subgraphs() {
    let ast_graph = fortran_graph();
    let total_nodes = ast_graph.node_count();
    let function_subgraphs = ast_graph.extract_subgraphs(fortran_types_to_split());
    let subgraph_totals: usize = function_subgraphs.iter().map(|s| s.node_count()).sum();
    let number_of_subgraphs = function_subgraphs.len();
    assert_eq!(subgraph_totals + number_of_subgraphs, total_nodes);
}

#[test]
fn test_source_splitting() {
    let ast_graph = fortran_graph();
    let total_source = ast_graph.source().len();
    let function_subgraphs = ast_graph.extract_subgraphs(fortran_types_to_split());
    let subgraph_totals: usize = function_subgraphs.iter().map(|s| s.source().len()).sum();
    // comments and blank text between the units are left out
    assert!(subgraph_totals < total_source);
}
