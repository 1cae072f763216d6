//! Whole searches on complete boards.
use ricochet_robots::astar::astar;
use ricochet_robots::board::Board;
use ricochet_robots::ids::ids;

const BOARD_15_1: [&str; 17] = [
    "15",
    "1",
    "  G       ##   ",
    "             ##",
    "        #      ",
    "        #    # ",
    "       #       ",
    " #       #0    ",
    "               ",
    "  ## #         ",
    "      #        ",
    "        #    # ",
    "               ",
    " #   #      #  ",
    "       #       ",
    "               ",
    "  #  #  #  #   ",
];

const BOARD_15_2: [&str; 17] = [
    "15",
    "2",
    "          ## # ",
    "  # # G        ",
    "         #    #",
    "#     #        ",
    "   #           ",
    "#              ",
    "# # #    #     ",
    " ###    #      ",
    "     #      #  ",
    "           #   ",
    "    ##         ",
    "   #   #      #",
    "        #   #  ",
    "#        #### 0",
    "     # #1      ",
];

const BOARD_15_4: [&str; 17] = [
    "15",
    "4",
    "     #         ",
    "       #   #   ",
    "               ",
    "           #   ",
    "         #     ",
    "   ##    #2 #  ",
    "##    ###      ",
    "#            3 ",
    "    #          ",
    "         #   0#",
    "    G#      1  ",
    "#    # # #    #",
    "   #    #     #",
    "   # #         ",
    "               ",
];

const BOARD_15_8: [&str; 17] = [
    "15",
    "8",
    "               ",
    "               ",
    " #  4#       # ",
    "     #     #   ",
    " 7    # #      ",
    "      G#       ",
    "# 3  #    2#   ",
    "     #     #   ",
    "#6             ",
    "     0         ",
    "1      #    #  ",
    "      #5 #     ",
    "   #        ## ",
    "               ",
    "      #     # #",
];

const BOARD_100_4: [&str; 102] = [
    "100",
    "4",
    "  #       ##       #           #    #  ###                   # #     #    # #           #        #  ",
    "        #      ##    #    #              #                ##   ##        #             #            ",
    "     #     #             #     # #          # #       #                   #  #                      ",
    "##   #    #        # #               ##                                         #           #      #",
    "           #      #      #      #     #  #  #    #         #     #                   #    #    ###  ",
    "  # #    #  #    ## ###                 #  #          #  #                    ##                    ",
    "                    # #       #  #             # #       #          # #                #     #      ",
    "                                                      #          #          #    ##      #   #    # ",
    "   #         # ###2      #          # #                                #       #    ##     #   #    ",
    "                    #     #  #                           #        ##    # #       #   #        #    ",
    "        #    #            #     #          #                 #        #     #  #   #                ",
    "      #           #      #                                                 #           #            ",
    " #  #      ##         #        #            #      #      #         #     ##  #      # #  #         ",
    "        #             #                                          # #                   #            ",
    "           #     #        ##            #   ###       #        #         # #           #            ",
    "              #       #     #         #  ##        ##                        # #    #  # #        # ",
    "                   ## #         #   #   #    #                        #       # ##  #        #     #",
    "  #                       #  #  # #     #        # #  #                #   # #  #    ##      #     #",
    "#  # #    #  #       # #        # #      ##    #            #  ##                      #      #   # ",
    "      #    #     #            #  #                      #    #  # #     #      ## #  #  #  #      # ",
    "                #                         #         ##  #              #     #    #   ###           ",
    "                #  #   #               #   #      #         #      # # #  #           #             ",
    "# # #                            # # #                      #  #      # #               # # #       ",
    "  #         # #       #    ##                      #####                                   ##    #  ",
    "      #     #   #                     #              #        #  #  #       #         #      #      ",
    "        #    # #        #                     ##   #        # # ##              #    #         #    ",
    " #         #           #            #   #   #        #                             #                ",
    "       ##  ##  ##  #      #                                              # ##                       ",
    "           #    ##                #         #              #                 #     #  #  #         #",
    " #         #     #  #               #                     #           ##  #   #      # #            ",
    "      #  #    #                             #3   ## # #     #         #   #               #         ",
    "    #      #    #    #    #        #    #        #               #                   #   #        # ",
    "  ##      # #             #               #           #                  # #      #   #             ",
    "                             #                      #  #                      # #     #             ",
    "               #        #   #                #     #       #          #       ##          #    #  # ",
    "   #              #  #  #       #        ##    #                      # G                     #  #  ",
    "         #      #               #     #      #         #                #    #  #   #        #      ",
    "       #         #     #        #        #   #  #     #                    #  #            #      # ",
    "      #              #   ##     #            ##               #           #   ##      #             ",
    "         #          # #          #   #    #                #         #                  #           ",
    "      ##                                                      # # #         #     #    #    #       ",
    "#       #    #      #      #         ##       #             #            #    #                     ",
    "     #     #           #           #    #             #                       #     #      #    ##  ",
    "    #     #   # #       #            #       ##  #     #      ###         # ##   ##  #              ",
    "                      #           # #               #     #               #                     #   ",
    "    #          ##  #   #    # ##         #     #            # #              #   #    # # #         ",
    "     # #              #   ##  #            #                    #    #       ##    # #      #       ",
    " # #  #              #         #                 #                            #      #              ",
    "                       #    #             #  # #                #         # #      # #             #",
    "   #       #                         #         #                    #    #  # #                #   #",
    "        #         #                              #      #       #                   #      #        ",
    "    #        #  ###    ###   #            #     #                ##   #      #                  #   ",
    "   # #  #   #               # #        # #            #        #                    #       #       ",
    " #                   ### #                #                    #               ##      #            ",
    "  #      #                                    #                  #  #      #   #          #  ##     ",
    "              #             ## #           #                  #  #                               #  ",
    "  #          #   # #      #   #                  #      #   #            # #    # #           #  #  ",
    "            #      #          #   ##  ##  # #      ## #                   #        #     #   #  #   ",
    "   #      #                       #  # #         #                               #              #   ",
    "  #   ##             #             #    #   #  #                      ##      #    #          #     ",
    "    #   #                   #          #     #     ##   #                            #  #           ",
    "                   # #          #  #  #            #      #     #         #      # #           #    ",
    "               #                                       #          ###   #           #  #            ",
    "#   #      #          #             ##         # #        # ###     # ##                            ",
    "                        ##                      #      #      #                      #       #      ",
    "        #  #     # #        #               #   #                                     #             ",
    "             #                       # #                1   #     #      # #   #               #    ",
    "             #         #      #                            #   #       #         ##   #          #  ",
    "         #                  #            # #    #                                                 # ",
    "   # #              #   #                           #      # #      #    #       #         #  #     ",
    "     #     # #  #              #     ##0 #   #            ###           ##  #    #                  ",
    "     #                # #   #        #          #   #        #                               #     #",
    "    #  #          #    #  #  #  # #                    #     #                    #         #   ##  ",
    " #      ## #            # #                         #      #    #   #  #              # #           ",
    "                      #                                            #      #     #     # #  #        ",
    " ##     #   #   # #          #  #  #        #                       ##      #           #   #   ##  ",
    "                     # #  #     #       #     ##                      #   #         #         #     ",
    "   #  # #  ##           #                        #          #                                      #",
    "             #     #           #         #     # # #        #  #           #      #    #   #    ##  ",
    "  # #    #    ##        # #  #   #          #         #     #    #       #             #            ",
    "     #    #     #     #   #     ##    #  ##         #      ##                                 #     ",
    " # #          ##  #             #                ##                  #         #         #          ",
    "    #      ### #   #                         #    ## #  #   #     ##        #  #              # # # ",
    " #     #      #               #        #                #    #  #                #          #      #",
    "              #   #                                   # #              #      # #            #      ",
    "    #  ##            # ##   #                   #  # #  #              ##      #   #           #    ",
    " #      #  ##                   #              ##         # #  #     #    #    #  #    ##     ##    ",
    "  ##      #        #    #          # ###   ##  #          # # #  #        #        #  #             ",
    "  #    #    #          # #            #          #                           #      # ##        #   ",
    "        #  ## #     #  #        # #    #   #                           #       #    #               ",
    "    #   #    #      #          # #  #         # # #          #          #   #        ##             ",
    "#                    ##   #     #            #            #  #          #         #              #  ",
    " #  # #   ##              #  #   #    #   #                                   #    #   #       # #  ",
    "#            #        #        #  #   #  #          #                    #             #            ",
    "      #    #                         #  #       #         # #        ###        #               # # ",
    " #      #                         #    #   #   #   #        #  ## #              #                # ",
    " #    # #                     #       #              #     # # #         #     #   #  #  #  #       ",
    "      #  #        ## #        #           #  #    #   #      # #                   #    #           ",
    " #      ###  #          #    #       #               #        #          #                         #",
    "#        # #     # #   #     #     #    #        #         #          #           #   #  #          ",
];

fn text(lines: &[&str]) -> String {
    let mut s = lines.join("\n");
    s.push('\n');
    s
}

fn astar_steps_u8(lines: &[&str], robots: usize) -> usize {
    let board: Board<bool, u8> = Board::from_str(&text(lines), robots).unwrap();
    assert!(board.ready_for_search());
    let endpoints = board.to_endpoints_board();
    let dists = board.get_dists();
    let sol = astar(&endpoints, &dists).expect("No solution");
    sol.len()
}

fn astar_steps_u16(lines: &[&str], robots: usize) -> usize {
    let board: Board<bool, u16> = Board::from_str(&text(lines), robots).unwrap();
    assert!(board.ready_for_search());
    let endpoints = board.to_endpoints_board();
    let dists = board.get_dists();
    let sol = astar(&endpoints, &dists).expect("No solution");
    sol.len()
}

fn ids_steps_u8(lines: &[&str], robots: usize) -> usize {
    let board: Board<bool, u8> = Board::from_str(&text(lines), robots).unwrap();
    assert!(board.ready_for_search());
    let endpoints = board.to_endpoints_board();
    let sol = ids(&endpoints).expect("No solution");
    sol.len()
}

#[test]
fn astar_15_1_15() {
    assert_eq!(astar_steps_u8(&BOARD_15_1, 1), 10);
}

#[test]
fn astar_15_2_15() {
    assert_eq!(astar_steps_u8(&BOARD_15_2, 2), 8);
}

#[test]
fn astar_15_4_15() {
    assert_eq!(astar_steps_u8(&BOARD_15_4, 4), 6);
}

#[test]
fn astar_100_4_20() {
    assert_eq!(astar_steps_u16(&BOARD_100_4, 4), 7);
}

#[test]
fn ricochet_test_1() {
    assert_eq!(ids_steps_u8(&BOARD_15_1, 1), 10);
}

#[test]
fn ricochet_test_2() {
    assert_eq!(ids_steps_u8(&BOARD_15_2, 2), 8);
}

#[test]
fn ricochet_test_4() {
    assert_eq!(ids_steps_u8(&BOARD_15_4, 4), 6);
}

#[test]
fn ricochet_test_8() {
    assert_eq!(ids_steps_u8(&BOARD_15_8, 8), 5);
}
