use sudoku_generator::difficulty::{calculate_clue_count, difficulty_name, remove_cells_strategically};
use sudoku_generator::generator::{count_solutions, create_puzzle, generate_solution};
use sudoku_generator::solver::{check_constraints, is_valid_solution};
use sudoku_generator::{generate, GenerateError};

#[test]
fn test_generate_9x9_scenario() {
    let result = generate(9, 0, 12345).expect("generation should succeed");
    assert_eq!(result.solution.len(), 81);
    assert!(is_valid_solution(&result.solution, 9));
    assert_eq!(result.grid.len(), 81);
    let zeros = result.grid.iter().filter(|&&x| x == 0).count();
    assert!(zeros > 0);
    assert!(zeros < 81);
    for i in 0..81 {
        if result.grid[i] != 0 {
            assert_eq!(result.grid[i], result.solution[i]);
        }
    }
}

#[test]
fn test_generate_16x16_scenario() {
    let result = generate(16, 1, 54321).expect("generation should succeed");
    assert_eq!(result.solution.len(), 256);
    assert!(is_valid_solution(&result.solution, 16));
    assert_eq!(result.grid.len(), 256);
}

#[test]
fn test_generate_invalid_size() {
    assert_eq!(generate(10, 0, 0).unwrap_err(), GenerateError::InvalidSize);
    assert_eq!(generate(0, 0, 0).unwrap_err(), GenerateError::InvalidSize);
    assert_eq!(generate(-9, 0, 0).unwrap_err(), GenerateError::InvalidSize);
}

#[test]
fn test_generate_invalid_difficulty() {
    assert_eq!(generate(9, 7, 0).unwrap_err(), GenerateError::InvalidDifficulty);
    assert_eq!(generate(9, -1, 0).unwrap_err(), GenerateError::InvalidDifficulty);
}

#[test]
fn test_generate_deterministic() {
    let a = generate(9, 2, 4242).expect("generation should succeed");
    let b = generate(9, 2, 4242).expect("generation should succeed");
    assert_eq!(a.solution, b.solution);
    assert_eq!(a.grid, b.grid);
}

#[test]
fn test_carved_9x9_puzzle_is_unique() {
    let sol = generate_solution(9, 777);
    let puzzle = create_puzzle(sol, 2, 9, 778);
    assert_eq!(count_solutions(&puzzle, 9), 1);
}

#[test]
fn test_count_solutions_empty_grid_not_unique() {
    let grid = vec![0; 16];
    assert!(count_solutions(&grid, 4) >= 2);
}

#[test]
fn test_calculate_clue_count_exact_values() {
    assert_eq!(calculate_clue_count(9, 0), 44); // floor(81 * 0.55)
    assert_eq!(calculate_clue_count(9, 1), 32); // floor(81 * 0.40)
    assert_eq!(calculate_clue_count(9, 2), 24); // floor(81 * 0.30)
    assert_eq!(calculate_clue_count(9, 3), 17); // floor(81 * 0.22)
    assert_eq!(calculate_clue_count(16, 1), 102); // floor(256 * 0.40)
    assert_eq!(calculate_clue_count(9, 42), 32); // unknown level falls back to medium
}

#[test]
fn test_difficulty_name_all_levels() {
    assert_eq!(difficulty_name(1), "medium");
    assert_eq!(difficulty_name(2), "hard");
    assert_eq!(difficulty_name(7), "unknown");
    assert_eq!(difficulty_name(-1), "unknown");
}

#[test]
fn test_seed_changes_solution() {
    // The seeded generator actually drives the shuffle: different seeds
    // give different grids for these inputs.
    let a = generate_solution(9, 1);
    let b = generate_solution(9, 2);
    assert_ne!(a, b);
    let c = generate_solution(16, 1);
    let d = generate_solution(16, 2);
    assert_ne!(c, d);
}

#[test]
fn test_is_valid_solution_mutated_4x4() {
    // A single duplicated digit in row 0 invalidates the grid.
    let mut grid = vec![1, 2, 3, 4, 3, 4, 1, 2, 2, 1, 4, 3, 4, 3, 2, 1];
    grid[1] = 1;
    assert!(!is_valid_solution(&grid, 4));
}

#[test]
fn test_check_constraints_column_and_box_conflicts() {
    let grid = vec![1, 2, 3, 4, 3, 4, 0, 2, 2, 1, 4, 3, 4, 3, 2, 1];
    assert!(!check_constraints(&grid, 4, 1, 2, 4)); // 4 already in column 2
    assert!(!check_constraints(&grid, 4, 1, 2, 2)); // 2 already in the box
    assert!(check_constraints(&grid, 4, 1, 2, 1)); // 1 conflicts nowhere
}

#[test]
fn test_check_constraints_ignores_own_cell() {
    let grid = vec![1, 2, 3, 4, 3, 4, 1, 2, 2, 1, 4, 3, 4, 3, 2, 1];
    // Cell (1, 2) already holds 1; the check excludes the cell itself.
    assert!(check_constraints(&grid, 4, 1, 2, 1));
}

#[test]
fn test_remove_cells_strategically_counts() {
    let mut grid = vec![1, 2, 3, 4, 3, 4, 1, 2, 2, 1, 4, 3, 4, 3, 2, 1];
    let solution = grid.clone();
    let removed = remove_cells_strategically(&mut grid, &solution, 10, 4, 99);
    assert_eq!(removed, 6);
    let zeros = grid.iter().filter(|&&x| x == 0).count();
    assert_eq!(zeros, 6);
    for i in 0..16 {
        assert!(grid[i] == 0 || grid[i] == solution[i]);
    }
}

#[test]
fn test_generate_large_sizes() {
    for &size in &[25, 36, 49, 100] {
        let result = generate(size, 1, 5).expect("generation should succeed");
        let n = (size * size) as usize;
        assert_eq!(result.solution.len(), n);
        assert!(is_valid_solution(&result.solution, size as usize));
        let clues = result.grid.iter().filter(|&&x| x != 0).count();
        assert_eq!(clues, calculate_clue_count(size as usize, 1));
    }
}
