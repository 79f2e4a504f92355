use hashcards::drill::Action;
use hashcards::drill::Grade;

#[test]
fn test_action_grade() {
    assert_eq!(Action::Forgot.grade(), Grade::Forgot);
    assert_eq!(Action::Hard.grade(), Grade::Hard);
    assert_eq!(Action::Good.grade(), Grade::Good);
    assert_eq!(Action::Easy.grade(), Grade::Easy);
}
