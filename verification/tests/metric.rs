use statsdproxy::types::{Metric, MetricTag};

#[test]
fn none_tags() {
    let metric = Metric::new(b"users.online:1|c|@0.5".to_vec());
    assert_eq!(metric.tags(), None);
    assert_eq!(metric.tags_iter().collect(), Vec::<MetricTag>::new());
    assert_eq!(metric.name().unwrap(), b"users.online");
    assert_eq!(metric.raw, b"users.online:1|c|@0.5");
}

#[test]
fn some_tags_end() {
    let metric = Metric::new(b"users.online:1|c|@0.5|#instance:foobar,country:china".to_vec());
    assert_eq!(metric.tags().unwrap(), b"instance:foobar,country:china");
    assert_eq!(metric.name().unwrap(), b"users.online");
    assert_eq!(
        metric.raw,
        b"users.online:1|c|@0.5|#instance:foobar,country:china"
    );
}

#[test]
fn some_tags_middle() {
    let metric = Metric::new(
        b"users.online:1|c|@0.5|#instance:foobar,country:china|T1692653389".to_vec(),
    );
    assert_eq!(metric.tags().unwrap(), b"instance:foobar,country:china");
    assert_eq!(metric.name().unwrap(), b"users.online");
    assert_eq!(
        metric.raw,
        b"users.online:1|c|@0.5|#instance:foobar,country:china|T1692653389"
    );
}

#[test]
fn add_none_tags_to_none() {
    let mut metric = Metric::new(b"users.online:1|c|@0.5".to_vec());

    metric.set_tags(b"");
    assert_eq!(metric.tags(), None);
    assert_eq!(metric.name().unwrap(), b"users.online");
    assert_eq!(metric.raw, b"users.online:1|c|@0.5");
}

#[test]
fn add_some_tags_to_none() {
    let mut metric = Metric::new(b"users.online:1|c|@0.5".to_vec());

    metric.set_tags(b"country:japan");
    assert_eq!(metric.tags().unwrap(), b"country:japan");
    assert_eq!(metric.name().unwrap(), b"users.online");
    assert_eq!(metric.raw, b"users.online:1|c|@0.5|#country:japan");
}

#[test]
fn remove_tags_end() {
    let mut metric =
        Metric::new(b"users.online:1|c|@0.5|#instance:foobar,country:china".to_vec());

    metric.set_tags(b"");
    assert_eq!(metric.tags(), None);
    assert_eq!(metric.name().unwrap(), b"users.online");
    assert_eq!(metric.raw, b"users.online:1|c|@0.5");
}

#[test]
fn remove_tags_middle() {
    let mut metric = Metric::new(
        b"users.online:1|c|@0.5|#instance:foobar,country:china|T1692653389".to_vec(),
    );

    metric.set_tags(b"");
    assert_eq!(metric.tags(), None);
    assert_eq!(metric.name().unwrap(), b"users.online");
    assert_eq!(metric.raw, b"users.online:1|c|@0.5|T1692653389");
}

#[test]
fn change_tags_end() {
    let mut metric =
        Metric::new(b"users.online:1|c|@0.5|#instance:foobar,country:china".to_vec());

    metric.set_tags(b"country:japan");
    assert_eq!(metric.tags().unwrap(), b"country:japan");
    assert_eq!(metric.name().unwrap(), b"users.online");
    assert_eq!(metric.raw, b"users.online:1|c|@0.5|#country:japan");
}

#[test]
fn change_tags_middle() {
    let mut metric = Metric::new(
        b"users.online:1|c|@0.5|#instance:foobar,country:china|T1692653389".to_vec(),
    );

    metric.set_tags(b"country:japan");
    assert_eq!(metric.tags().unwrap(), b"country:japan");
    assert_eq!(metric.name().unwrap(), b"users.online");
    assert_eq!(
        metric.raw,
        b"users.online:1|c|@0.5|#country:japan|T1692653389"
    );
}

#[test]
fn tag_iter() {
    let metric =
        Metric::new(b"users.online:1|c|@0.5|#instance:foobar,ohyeah,,country:china,".to_vec());

    let mut tag_iter = metric.tags_iter();

    {
        let first = tag_iter.next().unwrap();
        assert_eq!(first.name(), Some(b"instance".as_slice()));
        assert_eq!(first.value(), Some(b"foobar".as_slice()));
        assert_eq!(first.raw, b"instance:foobar".as_slice());
    }

    {
        let second = tag_iter.next().unwrap();
        assert_eq!(second.name(), None);
        assert_eq!(second.value(), None);
        assert_eq!(second.raw, b"ohyeah".as_slice());
    }

    {
        let third = tag_iter.next().unwrap();
        assert_eq!(third.name(), None);
        assert_eq!(third.value(), None);
        assert_eq!(third.raw, b"".as_slice());
    }

    {
        let fourth = tag_iter.next().unwrap();
        assert_eq!(fourth.name(), Some(b"country".as_slice()));
        assert_eq!(fourth.value(), Some(b"china".as_slice()));
        assert_eq!(fourth.raw, b"country:china".as_slice());
    }

    {
        let fifth = tag_iter.next().unwrap();
        assert_eq!(fifth.name(), None);
        assert_eq!(fifth.value(), None);
        assert_eq!(fifth.raw, b"".as_slice());
    }

    assert_eq!(tag_iter.next(), None);
}

#[test]
fn value_and_type() {
    let metric = Metric::new(b"users.online:1.5e3|ms|@0.5|#a:b".to_vec());
    assert_eq!(metric.value(), Some(b"1.5e3".as_slice()));
    assert_eq!(metric.ty(), Some(b"ms".as_slice()));
    assert_eq!(metric.value_pos(), Some((13, 18)));
    assert_eq!(metric.bytes(), b"users.online:1.5e3|ms|@0.5|#a:b");

    let metric = Metric::new(b"users.online:1".to_vec());
    assert_eq!(metric.value(), Some(b"1".as_slice()));
    assert_eq!(metric.ty(), None);

    let metric = Metric::new(b"users.online|c".to_vec());
    assert_eq!(metric.name(), Some(b"users.online|c".as_slice()));
    assert_eq!(metric.value(), None);
    assert_eq!(metric.ty(), Some(b"c".as_slice()));

    let metric = Metric::new(b":|".to_vec());
    assert_eq!(metric.name(), Some(b"".as_slice()));
    assert_eq!(metric.value(), Some(b"".as_slice()));
    assert_eq!(metric.ty(), Some(b"".as_slice()));

    let metric = Metric::new(Vec::new());
    assert_eq!(metric.name(), Some(b"".as_slice()));
    assert_eq!(metric.value(), None);
    assert_eq!(metric.ty(), None);
    assert_eq!(metric.tags(), None);
}

#[test]
fn tags_follow_the_first_marker() {
    let metric = Metric::new(b"a:1|c|#x:1|#y:2".to_vec());
    assert_eq!(metric.tags(), Some(b"x:1".as_slice()));
    let metric = Metric::new(b"a:1|c|#".to_vec());
    assert_eq!(metric.tags(), Some(b"".as_slice()));
    let metric = Metric::new(b"a:1|c|".to_vec());
    assert_eq!(metric.tags(), None);
    let metric = Metric::new(b"|#|".to_vec());
    assert_eq!(metric.tags(), Some(b"".as_slice()));
    let metric = Metric::new(b"a:1||#t".to_vec());
    assert_eq!(metric.tags(), Some(b"t".as_slice()));
}

#[test]
fn empty_tag_list_is_one_empty_tag() {
    let metric = Metric::new(b"a:1|c|#".to_vec());
    let tags = metric.tags_iter().collect();
    assert_eq!(tags.len(), 1);
    assert_eq!(tags[0].raw, b"");
    assert_eq!(tags[0].name(), None);
    assert_eq!(tags[0].value(), None);
}

#[test]
fn rejoined_tags_are_the_tag_list() {
    for line in [
        "a:1|c|#x:1,y,,z:2:3,|T1",
        "a:1|c|#",
        "a:1|c|#,",
        "a:1|c|#one",
    ] {
        let metric = Metric::new(line.as_bytes().to_vec());
        let tags = metric.tags_iter().collect();
        assert_eq!(
            statsdproxy::types::join_tags(&tags).as_slice(),
            metric.tags().unwrap()
        );
    }
}

#[test]
fn set_tags_keeps_the_rest() {
    let mut metric = Metric::new(b"a:1|c|@0.1|#x:1,y:2|T1|c:abc".to_vec());
    metric.set_tags(b"z");
    assert_eq!(metric.raw, b"a:1|c|@0.1|#z|T1|c:abc");
    assert_eq!(metric.tags(), Some(b"z".as_slice()));
    metric.set_tags(b"a much longer, tag:list");
    assert_eq!(metric.raw, b"a:1|c|@0.1|#a much longer, tag:list|T1|c:abc");
    assert_eq!(metric.tags(), Some(b"a much longer, tag:list".as_slice()));
    metric.set_tags(b"");
    assert_eq!(metric.raw, b"a:1|c|@0.1|T1|c:abc");
    assert_eq!(metric.tags(), None);
    metric.set_tags(b"new:1");
    assert_eq!(metric.raw, b"a:1|c|@0.1|T1|c:abc|#new:1");
    assert_eq!(metric.tags(), Some(b"new:1".as_slice()));
}

#[test]
fn set_tags_from_iter_joins_with_commas() {
    let source = Metric::new(b"s:1|c|#x:1,,y".to_vec());
    let tags = source.tags_iter().collect();
    let mut metric = Metric::new(b"a:1|c|#old|T1".to_vec());
    metric.set_tags_from_iter(&tags);
    assert_eq!(metric.raw, b"a:1|c|#x:1,,y|T1");
    metric.set_tags_from_iter(&[MetricTag::new(b"k:v")]);
    assert_eq!(metric.raw, b"a:1|c|#k:v|T1");
    metric.set_tags_from_iter(&[]);
    assert_eq!(metric.raw, b"a:1|c|T1");
}

#[test]
fn tag_name_and_value_split_at_the_first_colon() {
    let tag = MetricTag::new(b"a:b:c");
    assert_eq!(tag.name(), Some(b"a".as_slice()));
    assert_eq!(tag.value(), Some(b"b:c".as_slice()));
    assert_eq!(tag.name_value_sep_pos, Some(1));
    let tag = MetricTag::new(b":");
    assert_eq!(tag.name(), Some(b"".as_slice()));
    assert_eq!(tag.value(), Some(b"".as_slice()));
}
