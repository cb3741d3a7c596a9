use ilium::data::UserData;
use ilium::grouping::form_groups;
use ilium::order::sort_by_priority;

struct Player {
    rank: u64,
    team: u8,
}

impl UserData for Player {
    fn priority(&self) -> u64 {
        self.rank
    }

    fn accepts(&self, other: &Self) -> bool {
        self.team == other.team
    }

    fn matchmake_priority(&self) -> u64 {
        self.rank
    }

    fn matchmake_valid(&self, other: &Self) -> bool {
        self.team == other.team
    }
}

#[test]
fn equal_keys_keep_their_order() {
    let keys: Vec<u64> = vec![3, 1, 3, 0, 1];
    assert_eq!(sort_by_priority(&keys), vec![3, 1, 4, 0, 2]);
}

#[test]
fn a_lobby_takes_the_first_candidates_of_its_anchor() {
    let a = Player { rank: 1, team: 0 };
    let b = Player { rank: 2, team: 0 };
    let c = Player { rank: 3, team: 0 };
    let queue = vec![&a, &b, &c];
    assert_eq!(form_groups(&queue, 2), vec![vec![0, 1]]);
}

#[test]
fn a_claimed_user_anchors_no_lobby() {
    let users: Vec<Player> = vec![
        Player { rank: 1, team: 1 },
        Player { rank: 2, team: 2 },
        Player { rank: 3, team: 1 },
        Player { rank: 4, team: 2 },
        Player { rank: 5, team: 1 },
    ];
    let queue: Vec<&Player> = users.iter().collect();
    assert_eq!(form_groups(&queue, 2), vec![vec![0, 2], vec![1, 3]]);
    assert_eq!(form_groups(&queue, 3), vec![vec![0, 2, 4]]);
    assert_eq!(form_groups(&queue, 4), Vec::<Vec<usize>>::new());
}

#[test]
fn acceptance_is_asked_of_the_anchor_only() {
    struct Picky {
        likes: Vec<u8>,
        name: u8,
    }
    impl UserData for Picky {
        fn priority(&self) -> u64 {
            0
        }
        fn accepts(&self, other: &Self) -> bool {
            self.likes.contains(&other.name)
        }
        fn matchmake_priority(&self) -> u64 {
            0
        }
        fn matchmake_valid(&self, other: &Self) -> bool {
            self.likes.contains(&other.name)
        }
    }
    let a = Picky { likes: vec![], name: 1 };
    let b = Picky { likes: vec![1], name: 2 };
    let c = Picky { likes: vec![1, 2], name: 3 };
    let queue = vec![&a, &b, &c];
    assert_eq!(form_groups(&queue, 2), vec![vec![1, 0]]);
}

#[test]
fn an_empty_queue_yields_nothing() {
    let queue: Vec<&Player> = Vec::new();
    assert!(form_groups(&queue, 1).is_empty());
    assert!(sort_by_priority(&Vec::new()).is_empty());
}

#[test]
fn lower_keys_come_first() {
    assert_eq!(sort_by_priority(&vec![5, 4, 3, 2, 1]), vec![4, 3, 2, 1, 0]);
    assert_eq!(sort_by_priority(&vec![u64::MAX, 0]), vec![1, 0]);
    assert_eq!(sort_by_priority(&vec![7]), vec![0]);
}
