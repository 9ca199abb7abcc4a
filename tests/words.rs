use solvomatic::logic::YesNoMaybe::{Maybe, No, Yes};
use solvomatic::logic::YesNoMaybe;
use solvomatic::sequence::AllowedSeq;

fn word(w: &str) -> Vec<i32> {
    w.chars().map(|c| c as i32).collect()
}

fn c(ch: char) -> i32 {
    ch as i32
}

#[test]
fn test_seq() {

    let list = ["sax", "sex", "six", "sox", "too", "boo", "box", "cat"];
    let s = AllowedSeq::new(3, list.iter().map(|w| word(w)).collect());

    // Four words of the form `s_x`: `s{a,e,i,o}x`.
    assert_eq!(s.and(s.singleton(0, c('s')), s.singleton(2, c('x'))).count_ones(), 4);

    assert_eq!(
        s.check(&s.and(s.and(s.singleton(1, c('o')), s.singleton(2, c('o'))), s.singleton(0, c('t')))),
        Yes
    );

    assert_eq!(
        s.check(&s.and(
            s.and(s.singleton(1, c('o')), s.singleton(2, c('o'))),
            s.or(s.singleton(0, c('t')), s.singleton(0, c('b')))
        )),
        Yes
    );

    assert_eq!(
        s.check(&s.and(
            s.and(s.singleton(1, c('o')), s.or(s.singleton(2, c('o')), s.singleton(2, c('x')))),
            s.or(s.singleton(0, c('t')), s.singleton(0, c('b')))
        )),
        Maybe
    );

    assert_eq!(
        s.check(&s.and(s.singleton(0, c('x')), s.and(s.singleton(1, c('a')), s.singleton(2, c('c'))))),
        No
    );

    assert_eq!(
        s.check(&s.and(
            s.or(s.singleton(0, c('t')), s.singleton(0, c('n'))),
            s.and(
                s.or(s.singleton(1, c('t')), s.singleton(1, c('n'))),
                s.or(s.singleton(2, c('t')), s.singleton(2, c('n')))
            )
        )),
        No
    );

    assert_eq!(
        s.check(&s.and(s.and(s.singleton(0, c('t')), s.singleton(1, c('t'))), s.singleton(2, c('t')))),
        No
    );
}
