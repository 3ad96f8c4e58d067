use aoc24::robots::{Grid, Position, Robot, Velocity};

#[test]
fn test_position_new() {
    let x = 1;
    let y = 2;
    let actual = Position::new(x, y);
    let expected = Position { x, y };

    assert_eq!(actual, expected);
}

#[test]
fn test_velocity_new() {
    let x = 1;
    let y = -2;
    let actual = Velocity::new(x, y);
    let expected = Velocity { x, y };
    assert_eq!(actual, expected);
}

#[test]
fn test_robot_new() {
    let pos = Position::new(0, 0);
    let velocity = Velocity::new(-1, 1);
    let actual = Robot::new(pos, velocity);
    let expected = Robot { pos, velocity };
    assert_eq!(actual, expected);
}

#[test]
fn test_grid_new() {
    let size_x = 10;
    let size_y = 20;
    let robots = vec![Robot::new(Position::new(1, 2), Velocity::new(-1, 1))];
    let robots_copy = vec![Robot::new(Position::new(1, 2), Velocity::new(-1, 1))];
    let actual = Grid::new(size_x, size_y, robots);
    let expected = Grid { size_x, size_y, robots: robots_copy };
    assert_eq!(actual, expected);
}

#[test]
fn test_robot_step() {
    let mut robot = Robot::new(Position::new(0, 0), Velocity::new(1, 2));
    robot.step(&1, &10, &10);

    assert_eq!(robot.pos, Position::new(1, 2));

    let mut robot = Robot::new(Position::new(0, 0), Velocity::new(1, 2));
    robot.step(&5, &10, &10);

    assert_eq!(robot.pos, Position::new(5, 0));

    let mut robot = Robot::new(Position::new(0, 0), Velocity::new(-1, 2));
    robot.step(&5, &10, &10);

    assert_eq!(robot.pos, Position::new(5, 0));
}

#[test]
fn test_grid_calc() {
    let robots = vec![
        Robot::new(Position::new(0, 4), Velocity::new(3, -3)),
        Robot::new(Position::new(6, 3), Velocity::new(-1, -3)),
        Robot::new(Position::new(10, 3), Velocity::new(-1, 2)),
        Robot::new(Position::new(2, 0), Velocity::new(2, -1)),
        Robot::new(Position::new(0, 0), Velocity::new(1, 3)),
        Robot::new(Position::new(3, 0), Velocity::new(-2, -2)),
        Robot::new(Position::new(7, 6), Velocity::new(-1, -3)),
        Robot::new(Position::new(3, 0), Velocity::new(-1, -2)),
        Robot::new(Position::new(9, 3), Velocity::new(2, 3)),
        Robot::new(Position::new(7, 3), Velocity::new(-1, 2)),
        Robot::new(Position::new(2, 4), Velocity::new(2, -3)),
        Robot::new(Position::new(9, 5), Velocity::new(-3, -3)),
    ];

    let mut grid = Grid::new(11, 7, robots);
    grid.simulate(100);
    let actual = grid.calculate_quad_score();
    let expected = 12;
    assert_eq!(actual, expected);
}

#[test]
fn test_simulate_twice_is_two_steps() {
    // simulating is deterministic and stacks: 100 steps twice equals 200 at
    // once
    let start = || {
        Grid::new(
            11,
            7,
            vec![
                Robot::new(Position::new(2, 4), Velocity::new(2, -3)),
                Robot::new(Position::new(9, 5), Velocity::new(-3, 2)),
            ],
        )
    };
    let mut twice = start();
    twice.simulate(100);
    twice.simulate(100);
    let mut once = start();
    once.simulate(200);
    assert_eq!(once, twice);
}
